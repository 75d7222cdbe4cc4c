//! Generators for ring grids.

use crate::gene::{LayerMazeGenerator, Maze2dGenerator};
use crate::graph::is_spanning_tree;
use crate::maze::circ::{CircGrid, CircMaze};
use crate::maze::{is_blank, is_connected, Grid2d};
use crate::random::RandomSource;
use vstd::prelude::*;

verus! {

/// A generator of ring mazes.
pub trait CircMazeGenerator {
    /// Makes the grid, which has no passage yet, into a perfect maze.
    fn generate(&self, grid: CircGrid, rng: &mut RandomSource) -> (maze: CircMaze)
        requires
            grid.valid(),
            is_connected(&grid),
            is_blank(&grid),
        ensures
            maze.valid(),
            maze.rings() == grid.rings(),
            maze.cells() == grid.cells(),
            is_spanning_tree(maze.cells(), maze.links(), maze.links_n()),
    ;
}

/// Makes ring mazes with a generator that works on every topology.
#[derive(Debug)]
pub struct CircMaze2dGenerator<G: Maze2dGenerator> {
    generator: G,
}

impl<G: Maze2dGenerator> CircMazeGenerator for CircMaze2dGenerator<G> {
    fn generate(&self, mut grid: CircGrid, rng: &mut RandomSource) -> (maze: CircMaze) {
        self.generator.generate_2d(&mut grid, rng);
        CircMaze::new(grid)
    }
}

impl<G: Maze2dGenerator> CircMaze2dGenerator<G> {
    /// The generator that does the work.
    pub closed spec fn inner(&self) -> G {
        self.generator
    }

    /// A generator that hands its grids to `generator`.
    pub fn new(generator: G) -> (made: Self)
        ensures
            made.inner() == generator,
    {
        Self { generator }
    }
}

/// Makes ring mazes with a generator that works layer by layer.
#[derive(Debug)]
pub struct CircLayerMazeGenerator<G: LayerMazeGenerator> {
    generator: G,
}

impl<G: LayerMazeGenerator> CircMazeGenerator for CircLayerMazeGenerator<G> {
    fn generate(&self, mut grid: CircGrid, rng: &mut RandomSource) -> (maze: CircMaze) {
        self.generator.generate_layer(&mut grid, rng);
        CircMaze::new(grid)
    }
}

impl<G: LayerMazeGenerator> CircLayerMazeGenerator<G> {
    /// The generator that does the work.
    pub closed spec fn inner(&self) -> G {
        self.generator
    }

    /// A generator that hands its grids to `generator`.
    pub fn new(generator: G) -> (made: Self)
        ensures
            made.inner() == generator,
    {
        Self { generator }
    }
}

} // verus!
