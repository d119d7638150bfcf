//! Angle-constrained route planning over planar points.
//!
//! Given a set of points on a grid, the library searches for an open path
//! that visits every point exactly once and never turns by more than 90
//! degrees, preferring the nearest admissible point at each step and
//! falling back to exhaustive backtracking over successive seed pairs.

pub mod candidates;
pub mod geometry;
pub mod matrix;
pub mod search;
