//! Maze generation on a grid of packed colours.
//!
//! A maze of `w` by `h` rooms is drawn on a buffer of `2w + 1` by `2h + 1`
//! cells: rooms sit on the odd coordinates, the walls between them on the
//! cells in between, and the outer ring is always wall. A randomised
//! depth-first walk carves a perfect maze; on request further walls are
//! opened, each drawn from those still closed. All randomness comes from a
//! seeded generator, so a seed always gives the same maze.

pub mod breach;
pub mod carve;
pub mod census;
pub mod count;
pub mod dice;
pub mod grid;
pub mod laws;
pub mod maze;
pub mod plan;
pub mod settings;
pub mod walk;
