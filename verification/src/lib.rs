//! Procedural generation of cage-layout grids for logic puzzles.
//!
//! A grid is seeded with a caller-supplied set of anchor rectangles, grown
//! outward from exposed rectangle corners with randomly sized rectangles,
//! checked for connectivity of the fillable region, and finally repaired so
//! that every maximal row or column run of fillable cells (a "cage") has a
//! length between 2 and 9.

pub mod anchors;
pub mod cages;
pub mod cell;
pub mod component;
pub mod connect;
pub mod counting;
pub mod defaults;
pub mod generate;
pub mod grid;
pub mod laws;
pub mod rng;
