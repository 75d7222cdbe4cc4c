//! Perfect-maze generation over rectangular, hexagonal, triangular and
//! concentric-ring grids.
//!
//! Every generator works through the [`maze::Grid2d`] abstraction only, and
//! every contract is stated over the graph that a grid stands for: its cells,
//! which cells are neighbours, and which neighbours have been connected.

pub mod random;
pub mod graph;
pub mod pos_set;
pub mod maze;
pub mod gene;
pub mod reach;
pub mod show;
