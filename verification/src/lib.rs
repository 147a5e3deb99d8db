//! A procedural maze library: carves a perfect rectangular maze with a
//! randomized iterative backtracker, finds the unique entrance-to-exit path
//! by depth-first search, and rasterizes maze and path onto a character
//! canvas through line- and rectangle-drawing primitives.

pub mod geometry;
pub mod maze;
pub mod spantree;
pub mod generate;
pub mod solve;
pub mod display;
mod rng;
