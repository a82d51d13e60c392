//! Orthogonal maze generation with machine-checked contracts.
//!
//! A maze is a rectangular grid of cells. Neighbouring cells are either joined
//! by a passage or separated by a wall. Every generator in this crate is proved
//! to make a spanning tree of the grid, whatever the random source hands out,
//! and the validator is proved to decide exactly whether a grid is connected.

pub mod algorithms;
pub mod arena;
pub mod builder;
pub mod cell;
pub mod color;
pub mod errors;
pub mod formatters;
pub mod grid;
pub mod maze;
pub mod num;
pub mod pathfind;
pub mod paths;
pub mod pole;
pub mod random;
pub mod text;
pub mod types;
pub mod validate;
pub mod walls;
