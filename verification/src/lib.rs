//! The integer core of a viewer for an unbounded two-dimensional cellular
//! automaton whose state is kept by a quadtree simulation engine.
//!
//! Everything here works on lattice coordinates and plain values: the caller
//! owns the engine and the window toolkit, performs the requests this crate
//! issues, and hands the answers back.

pub mod cull;
pub mod driver;
pub mod edits;
pub mod input;
pub mod lattice;
pub mod lod;
pub mod memsize;
pub mod steps;
