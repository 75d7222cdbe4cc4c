//! Generators for triangular grids.

use crate::gene::Maze2dGenerator;
use crate::graph::is_spanning_tree;
use crate::maze::tri::{TriGrid, TriMaze};
use crate::maze::{is_blank, is_connected, Grid2d};
use crate::random::RandomSource;
use vstd::prelude::*;

verus! {

/// A generator of triangular mazes. Every generator that works on every
/// topology is one.
pub trait TriMazeGenerator {
    /// Makes the grid, which has no passage yet, into a perfect maze.
    fn generate(&self, grid: TriGrid, rng: &mut RandomSource) -> (maze: TriMaze)
        requires
            grid.valid(),
            is_connected(&grid),
            is_blank(&grid),
        ensures
            maze.valid(),
            maze.dims() == grid.dims(),
            maze.cells() == grid.cells(),
            is_spanning_tree(maze.cells(), maze.links(), maze.links_n()),
    ;
}

impl<G: Maze2dGenerator> TriMazeGenerator for G {
    fn generate(&self, mut grid: TriGrid, rng: &mut RandomSource) -> (maze: TriMaze) {
        self.generate_2d(&mut grid, rng);
        TriMaze::new(grid)
    }
}

} // verus!
