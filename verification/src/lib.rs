//! Solver for a grid-based logic puzzle in which cells of an N x N grid are
//! classified as "box" or "non-box" so that directional arrow clues and
//! neighborhood-count number clues are satisfied, and the box cells fold onto
//! the surface of a rectangular solid whose faces carry the clues in
//! geometrically consistent positions.

pub mod geom;
pub mod cellset;
pub mod clues;
pub mod reach;
pub mod grid;
pub mod engine;
pub mod search;
pub mod solid;
pub mod fold;
