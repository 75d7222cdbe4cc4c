//! Generators for hexagonal grids.

use crate::gene::{LayerMazeGenerator, Maze2dGenerator};
use crate::graph::is_spanning_tree;
use crate::maze::hexa::{HexaGrid, HexaMaze};
use crate::maze::{is_blank, is_connected, Grid2d, MaskType, NoMask, WithMask};
use crate::random::RandomSource;
use vstd::prelude::*;

verus! {

/// A generator of hexagonal mazes, for grids with a mask or for grids
/// without.
pub trait HexaMazeGenerator<M: MaskType> {
    /// Makes the grid, which has no passage yet, into a perfect maze.
    fn generate(&self, grid: HexaGrid<M>, rng: &mut RandomSource) -> (maze: HexaMaze)
        requires
            grid.valid(),
            is_connected(&grid),
            is_blank(&grid),
        ensures
            maze.valid(),
            maze.dims() == grid.dims(),
            maze.cells() == grid.cells(),
            is_spanning_tree(maze.cells(), maze.links(), maze.links_n()),
    ;
}

/// Makes hexagonal mazes with a generator that works on every topology.
#[derive(Debug)]
pub struct HexaMaze2dGenerator<G: Maze2dGenerator> {
    generator: G,
}

impl<G: Maze2dGenerator> HexaMazeGenerator<NoMask> for HexaMaze2dGenerator<G> {
    fn generate(&self, mut grid: HexaGrid<NoMask>, rng: &mut RandomSource) -> (maze: HexaMaze) {
        self.generator.generate_2d(&mut grid, rng);
        HexaMaze::NoMask(grid)
    }
}

impl<G: Maze2dGenerator> HexaMazeGenerator<WithMask> for HexaMaze2dGenerator<G> {
    fn generate(&self, mut grid: HexaGrid<WithMask>, rng: &mut RandomSource) -> (maze: HexaMaze) {
        self.generator.generate_2d(&mut grid, rng);
        HexaMaze::WithMask(grid)
    }
}

impl<G: Maze2dGenerator> HexaMaze2dGenerator<G> {
    /// The generator that does the work.
    pub closed spec fn inner(&self) -> G {
        self.generator
    }

    /// A generator that hands its grids to `generator`.
    pub fn new(generator: G) -> (made: Self)
        ensures
            made.inner() == generator,
    {
        Self { generator }
    }
}

/// Makes hexagonal mazes with a generator that works layer by layer.
#[derive(Debug)]
pub struct HexaLayerMazeGenerator<G: LayerMazeGenerator> {
    generator: G,
}

impl<G: LayerMazeGenerator> HexaMazeGenerator<NoMask> for HexaLayerMazeGenerator<G> {
    fn generate(&self, mut grid: HexaGrid<NoMask>, rng: &mut RandomSource) -> (maze: HexaMaze) {
        self.generator.generate_layer(&mut grid, rng);
        HexaMaze::NoMask(grid)
    }
}

impl<G: LayerMazeGenerator> HexaLayerMazeGenerator<G> {
    /// The generator that does the work.
    pub closed spec fn inner(&self) -> G {
        self.generator
    }

    /// A generator that hands its grids to `generator`.
    pub fn new(generator: G) -> (made: Self)
        ensures
            made.inner() == generator,
    {
        Self { generator }
    }
}

} // verus!
