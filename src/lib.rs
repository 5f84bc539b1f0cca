//! Conway's Game of Life on a toroidal grid whose cells are packed one bit
//! each, with exporters that turn the current generation into vertex data for
//! a renderer.

pub mod bits;
pub mod rules;
pub mod universe;
pub mod render;
pub mod patterns;

pub use universe::{Cell, Universe};
