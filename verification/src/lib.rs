//! A toroidal two-dimensional cellular automaton advanced by Conway's rule.
//!
//! The grid stores its cells in a flat row-major buffer; every coordinate is
//! normalized modulo the grid dimensions, so lookups wrap around the edges
//! instead of running out of bounds.

pub mod grid;
