//! Generators for rectangular grids, among them three that work on
//! rectangular grids only.

use crate::gene::{flows_down, lemma_flow_perfect, LayerMazeGenerator, Maze2dGenerator};
use crate::graph::{
    all_joined, flows_within, is_spanning_tree, joined, lemma_flow_within, lemma_joined_grows,
    lemma_joined_step, lemma_joined_sym, lemma_joined_trans, symmetric, with_pair,
};
use std::ops::Range;
use crate::maze::rect::{RectDirection, RectGrid, RectMaze, RectPosition};
use crate::maze::{
    is_blank, is_connected, is_perfect, lemma_rect_cells, Grid2d, MaskType, NoMask, Position2d,
    WithMask,
};
use crate::random::RandomSource;
use vstd::prelude::*;

verus! {

/// A generator of rectangular mazes, for grids with a mask or for grids
/// without.
pub trait RectMazeGenerator<M: MaskType> {
    /// Whether the generator makes a perfect maze of every grid. It does
    /// unless its settings ask for open rooms.
    spec fn makes_trees(&self) -> bool;

    /// Opens passages in the grid, which has none yet, so that every cell
    /// can be reached from every other: a perfect maze, unless the settings
    /// ask for open rooms.
    fn generate(&self, grid: RectGrid<M>, rng: &mut RandomSource) -> (maze: RectMaze)
        requires
            grid.valid(),
            is_connected(&grid),
            is_blank(&grid),
        ensures
            maze.valid(),
            maze.dims() == grid.dims(),
            maze.cells() == grid.cells(),
            crate::graph::all_joined(maze.cells(), maze.links()),
            self.makes_trees() ==> is_spanning_tree(maze.cells(), maze.links(), maze.links_n()),
    ;
}

/// Makes rectangular mazes with a generator that works on every topology.
#[derive(Debug)]
pub struct RectMaze2dGenerator<G: Maze2dGenerator> {
    generator: G,
}

impl<G: Maze2dGenerator> RectMazeGenerator<NoMask> for RectMaze2dGenerator<G> {
    open spec fn makes_trees(&self) -> bool {
        true
    }

    fn generate(&self, mut grid: RectGrid<NoMask>, rng: &mut RandomSource) -> (maze: RectMaze) {
        self.generator.generate_2d(&mut grid, rng);
        RectMaze::NoMask(grid)
    }
}

impl<G: Maze2dGenerator> RectMazeGenerator<WithMask> for RectMaze2dGenerator<G> {
    open spec fn makes_trees(&self) -> bool {
        true
    }

    fn generate(&self, mut grid: RectGrid<WithMask>, rng: &mut RandomSource) -> (maze: RectMaze) {
        self.generator.generate_2d(&mut grid, rng);
        RectMaze::WithMask(grid)
    }
}

impl<G: Maze2dGenerator> RectMaze2dGenerator<G> {
    /// The generator that does the work.
    pub closed spec fn inner(&self) -> G {
        self.generator
    }

    /// A generator that hands its grids to `generator`.
    pub fn new(generator: G) -> (made: Self)
        ensures
            made.inner() == generator,
    {
        Self { generator }
    }
}

/// Makes rectangular mazes with a generator that works layer by layer.
#[derive(Debug)]
pub struct RectLayerMazeGenerator<G: LayerMazeGenerator> {
    generator: G,
}

impl<G: LayerMazeGenerator> RectMazeGenerator<NoMask> for RectLayerMazeGenerator<G> {
    open spec fn makes_trees(&self) -> bool {
        true
    }

    fn generate(&self, mut grid: RectGrid<NoMask>, rng: &mut RandomSource) -> (maze: RectMaze) {
        self.generator.generate_layer(&mut grid, rng);
        RectMaze::NoMask(grid)
    }
}

impl<G: LayerMazeGenerator> RectLayerMazeGenerator<G> {
    /// The generator that does the work.
    pub closed spec fn inner(&self) -> G {
        self.generator
    }

    /// A generator that hands its grids to `generator`.
    pub fn new(generator: G) -> (made: Self)
        ensures
            made.inner() == generator,
    {
        Self { generator }
    }
}

/// One of the four corners of a rectangle: the two directions that lead to
/// it.
#[derive(Debug, Clone, Copy, PartialEq, Eq, PartialOrd, Ord, Hash, Structural)]
pub enum DiagonalDirection {
    Northeast,
    Southeast,
    Southwest,
    Northwest,
}

impl DiagonalDirection {
    /// The direction along a row and the direction along a column that lead
    /// to the corner.
    pub open spec fn dirs(self) -> (RectDirection, RectDirection) {
        match self {
            DiagonalDirection::Northeast => (RectDirection::East, RectDirection::North),
            DiagonalDirection::Southeast => (RectDirection::East, RectDirection::South),
            DiagonalDirection::Southwest => (RectDirection::West, RectDirection::South),
            DiagonalDirection::Northwest => (RectDirection::West, RectDirection::North),
        }
    }

    /// The direction along a row and the direction along a column that lead
    /// to the corner.
    pub fn hv_dirs(&self) -> (dirs: (RectDirection, RectDirection))
        ensures
            dirs == self.dirs(),
    {
        match self {
            DiagonalDirection::Northeast => (RectDirection::East, RectDirection::North),
            DiagonalDirection::Southeast => (RectDirection::East, RectDirection::South),
            DiagonalDirection::Southwest => (RectDirection::West, RectDirection::South),
            DiagonalDirection::Northwest => (RectDirection::West, RectDirection::North),
        }
    }
}

/// Whether `p` comes before the place `(r, c)` in row-major order.
pub open spec fn done_before(p: Position2d, r: int, c: int) -> bool {
    p.0 < r || (p.0 == r && p.1 < c)
}

/// The corner that the two directions lead to.
pub open spec fn corner_of(
    dims: (usize, usize),
    dirs: (RectDirection, RectDirection),
) -> Position2d {
    Position2d(
        if dirs.1 == RectDirection::North {
            0
        } else {
            (dims.1 - 1) as usize
        },
        if dirs.0 == RectDirection::East {
            (dims.0 - 1) as usize
        } else {
            0
        },
    )
}

/// How many steps `p` is away from the corner that the two directions lead
/// to.
pub open spec fn corner_rank(
    dims: (usize, usize),
    dirs: (RectDirection, RectDirection),
    p: Position2d,
) -> nat {
    let corner = corner_of(dims, dirs);
    ((if p.0 < corner.0 {
        corner.0 - p.0
    } else {
        p.0 - corner.0
    }) + (if p.1 < corner.1 {
        corner.1 - p.1
    } else {
        p.1 - corner.1
    })) as nat
}

/// Whether `b` is the neighbour of `a` in one of the two directions.
pub open spec fn is_ahead(
    grid: &RectGrid<NoMask>,
    dirs: (RectDirection, RectDirection),
    a: Position2d,
    b: Position2d,
) -> bool {
    grid.toward(a, dirs.0) == Some(b) || grid.toward(a, dirs.1) == Some(b)
}

/// No cell has passages in both of the two directions.
pub open spec fn one_way(grid: &RectGrid<NoMask>, dirs: (RectDirection, RectDirection)) -> bool {
    forall|a: Position2d, b: Position2d, d: Position2d|
        #![trigger grid.links().contains((a, b)), grid.links().contains((a, d))]
        grid.links().contains((a, b)) && is_ahead(grid, dirs, a, b) && grid.links().contains(
            (a, d),
        ) && is_ahead(grid, dirs, a, d) ==> b == d
}

/// The state of the binary tree algorithm before it deals with the cell
/// at `(r, c)`: every cell before it but the corner has a passage in one
/// of the two directions and in one only, there is no other passage, and
/// the passages are as many as those cells.
pub open spec fn btree_state(
    grid: &RectGrid<NoMask>,
    dirs: (RectDirection, RectDirection),
    r: int,
    c: int,
) -> bool {
    &&& grid.valid()
    &&& forall|p: Position2d|
        #![trigger grid.cells().contains(p)]
        grid.cells().contains(p) && done_before(p, r, c) && p != corner_of(grid.dims(), dirs)
            ==> exists|q: Position2d| #[trigger]
            grid.links().contains((p, q)) && is_ahead(grid, dirs, p, q)
    &&& forall|a: Position2d, b: Position2d| #[trigger]
        grid.links().contains((a, b)) ==> (done_before(a, r, c) && is_ahead(grid, dirs, a, b))
            || (done_before(b, r, c) && is_ahead(grid, dirs, b, a))
    &&& one_way(grid, dirs)
    &&& grid.links_n() + (if grid.cells().contains(corner_of(grid.dims(), dirs)) && done_before(
        corner_of(grid.dims(), dirs),
        r,
        c,
    ) {
        1nat
    } else {
        0nat
    }) == r * grid.dims().0 + c
}

/// Joins every cell to one of two neighbours: the one along the row or the
/// one along the column in the direction of a corner. A cell at the border
/// is joined to the one neighbour it has there, the corner cell to none.
#[derive(Debug, Clone, Copy, PartialEq, Eq, PartialOrd, Ord, Hash)]
pub struct BTreeMazeGenerator {
    con_dir: DiagonalDirection,
}

impl BTreeMazeGenerator {
    /// The corner that the passages lead to.
    pub closed spec fn bias(&self) -> DiagonalDirection {
        self.con_dir
    }

    /// A generator whose passages lead to the given corner.
    pub fn new(con_dir: DiagonalDirection) -> (made: Self)
        ensures
            made.bias() == con_dir,
    {
        Self { con_dir }
    }

    /// The state holds on after the cell at `(r, c)` has been joined to
    /// its neighbour in one of the two directions, or has been left alone
    /// as the corner.
    proof fn lemma_cell_done(
        before: &RectGrid<NoMask>,
        after: &RectGrid<NoMask>,
        dirs: (RectDirection, RectDirection),
        r: int,
        c: int,
        dir: Option<RectDirection>,
    )
        requires
            btree_state(before, dirs, r, c),
            exists|con_dir: DiagonalDirection| dirs == con_dir.dirs(),
            0 <= r < before.dims().1,
            0 <= c < before.dims().0,
            after.valid(),
            after.dims() == before.dims(),
            after.marks() == before.marks(),
            match dir {
                Some(d) => {
                    &&& d == dirs.0 || d == dirs.1
                    &&& before.neighbor_at(RectPosition { row: r as usize, col: c as usize }, d)
                        is Some
                    &&& after.passages() == with_pair(
                        before.passages(),
                        Position2d(r as usize, c as usize),
                        before.neighbor_at(
                            RectPosition { row: r as usize, col: c as usize },
                            d,
                        )->0.pos(),
                    )
                    &&& after.passages_n() == before.passages_n() + if !before.open_toward(
                        RectPosition { row: r as usize, col: c as usize },
                        d,
                    ) {
                        1nat
                    } else {
                        0nat
                    }
                },
                None => {
                    &&& Position2d(r as usize, c as usize) == corner_of(before.dims(), dirs)
                    &&& after.passages() == before.passages()
                    &&& after.passages_n() == before.passages_n()
                },
            },
        ensures
            btree_state(after, dirs, r, c + 1),
    {
        let pos = Position2d(r as usize, c as usize);
        let rect_pos = RectPosition { row: r as usize, col: c as usize };
        assert(RectGrid::<NoMask>::rp(pos) == rect_pos);
        let corner = corner_of(before.dims(), dirs);
        assert forall|x: Position2d, d: RectDirection|
            after.toward(x, d) == before.toward(x, d) by {}
        match dir {
            Some(d) => {
                let next = before.neighbor_at(rect_pos, d)->0;
                before.lemma_open_toward(rect_pos, d);
                assert(pos != corner);
                if before.links().contains((pos, next.pos())) {
                    assert(is_ahead(before, dirs, next.pos(), pos));
                    assert(false);
                }
                assert forall|p: Position2d|
                    #![trigger after.cells().contains(p)]
                    after.cells().contains(p) && done_before(p, r, c + 1) && p
                        != corner implies exists|q: Position2d| #[trigger]
                    after.links().contains((p, q)) && is_ahead(after, dirs, p, q) by {
                    if p == pos {
                        assert(after.links().contains((p, next.pos())) && is_ahead(
                            after,
                            dirs,
                            p,
                            next.pos(),
                        ));
                    } else {
                        assert(before.cells().contains(p));
                        let q = choose|q: Position2d| #[trigger]
                            before.links().contains((p, q)) && is_ahead(before, dirs, p, q);
                        assert(after.links().contains((p, q)) && is_ahead(after, dirs, p, q));
                    }
                }
                assert forall|a: Position2d, b: Position2d| #[trigger]
                    after.links().contains((a, b)) implies (done_before(a, r, c + 1) && is_ahead(
                    after,
                    dirs,
                    a,
                    b,
                )) || (done_before(b, r, c + 1) && is_ahead(after, dirs, b, a)) by {
                    if before.links().contains((a, b)) {
                        assert((done_before(a, r, c) && is_ahead(before, dirs, a, b)) || (
                        done_before(b, r, c) && is_ahead(before, dirs, b, a)));
                    }
                }
                Self::lemma_one_way(before, after, dirs, r, c, pos, next.pos());
            },
            None => {
                assert forall|p: Position2d|
                    #![trigger after.cells().contains(p)]
                    after.cells().contains(p) && done_before(p, r, c + 1) && p
                        != corner implies exists|q: Position2d| #[trigger]
                    after.links().contains((p, q)) && is_ahead(after, dirs, p, q) by {
                    assert(before.cells().contains(p));
                    let q = choose|q: Position2d| #[trigger]
                        before.links().contains((p, q)) && is_ahead(before, dirs, p, q);
                    assert(after.links().contains((p, q)) && is_ahead(after, dirs, p, q));
                }
                assert forall|a: Position2d, b: Position2d| #[trigger]
                    after.links().contains((a, b)) implies (done_before(a, r, c + 1) && is_ahead(
                    after,
                    dirs,
                    a,
                    b,
                )) || (done_before(b, r, c + 1) && is_ahead(after, dirs, b, a)) by {
                    assert((done_before(a, r, c) && is_ahead(before, dirs, a, b)) || (done_before(
                        b,
                        r,
                        c,
                    ) && is_ahead(before, dirs, b, a)));
                }
                assert(one_way(after, dirs));
            },
        }
    }

    /// A passage opened from the cell at `(r, c)` in one of the two
    /// directions leaves every cell with a passage in one of them at most.
    proof fn lemma_one_way(
        before: &RectGrid<NoMask>,
        after: &RectGrid<NoMask>,
        dirs: (RectDirection, RectDirection),
        r: int,
        c: int,
        pos: Position2d,
        next: Position2d,
    )
        requires
            btree_state(before, dirs, r, c),
            exists|con_dir: DiagonalDirection| dirs == con_dir.dirs(),
            after.valid(),
            after.dims() == before.dims(),
            after.marks() == before.marks(),
            pos == Position2d(r as usize, c as usize),
            0 <= r <= usize::MAX,
            0 <= c <= usize::MAX,
            is_ahead(before, dirs, pos, next),
            after.links() == with_pair(before.links(), pos, next),
        ensures
            one_way(after, dirs),
    {
        let con_dir = choose|con_dir: DiagonalDirection| dirs == con_dir.dirs();
        assert forall|x: Position2d, d: RectDirection|
            after.toward(x, d) == before.toward(x, d) by {}
        Self::lemma_ahead(before, con_dir, pos, next);
        assert forall|a: Position2d, b: Position2d, d: Position2d|
            #![trigger after.links().contains((a, b)), after.links().contains((a, d))]
            after.links().contains((a, b)) && is_ahead(after, dirs, a, b)
                && after.links().contains((a, d)) && is_ahead(after, dirs, a, d) implies b
            == d by {
            Self::lemma_ahead(before, con_dir, a, b);
            Self::lemma_ahead(before, con_dir, a, d);
            if a == pos {
                if before.links().contains((a, b)) {
                    assert(is_ahead(before, dirs, b, a));
                    Self::lemma_ahead(before, con_dir, b, a);
                }
                if before.links().contains((a, d)) {
                    assert(is_ahead(before, dirs, d, a));
                    Self::lemma_ahead(before, con_dir, d, a);
                }
            } else {
                assert(before.links().contains((a, b)));
                assert(before.links().contains((a, d)));
            }
        }
    }

    /// The state at the end of a row is the state at the start of the
    /// next.
    proof fn lemma_row_done(grid: &RectGrid<NoMask>, dirs: (RectDirection, RectDirection), r: int)
        requires
            btree_state(grid, dirs, r, grid.dims().0 as int),
            0 <= r,
        ensures
            btree_state(grid, dirs, r + 1, 0),
    {
        let w = grid.dims().0 as int;
        assert((r + 1) * w == r * w + w) by (nonlinear_arith);
        assert forall|p: Position2d|
            #![trigger grid.cells().contains(p)]
            grid.cells().contains(p) implies done_before(p, r, w) == done_before(p, r + 1, 0) by {}
        grid.lemma_graph();
        assert forall|a: Position2d, b: Position2d| #[trigger]
            grid.links().contains((a, b)) implies (done_before(a, r + 1, 0) && is_ahead(
            grid,
            dirs,
            a,
            b,
        )) || (done_before(b, r + 1, 0) && is_ahead(grid, dirs, b, a)) by {
            assert(grid.neighbors_of(a).contains(b));
            assert(grid.cells().contains(a) && grid.cells().contains(b));
        }
    }

    /// A step in one of the two directions leads nearer to the corner.
    proof fn lemma_ahead(
        grid: &RectGrid<NoMask>,
        con_dir: DiagonalDirection,
        p: Position2d,
        q: Position2d,
    )
        requires
            grid.valid(),
            is_ahead(grid, con_dir.dirs(), p, q),
        ensures
            corner_rank(grid.dims(), con_dir.dirs(), q) < corner_rank(
                grid.dims(),
                con_dir.dirs(),
                p,
            ),
    {
        let from = RectGrid::<NoMask>::rp(p);
        let dirs = con_dir.dirs();
        assert(grid.neighbor_at(from, dirs.0) is Some || grid.neighbor_at(from, dirs.1) is Some);
        assert(grid.has(from));
        assert(grid.has(RectGrid::<NoMask>::rp(q)));
    }

    /// Once every cell has been dealt with, the maze is perfect.
    #[verifier::rlimit(40)]
    proof fn lemma_all_done(grid: &RectGrid<NoMask>, dirs: (RectDirection, RectDirection))
        requires
            btree_state(grid, dirs, grid.dims().1 as int, 0),
            exists|con_dir: DiagonalDirection| dirs == con_dir.dirs(),
        ensures
            is_perfect(grid),
    {
        let dims = grid.dims();
        let corner = corner_of(dims, dirs);
        let con_dir = choose|con_dir: DiagonalDirection| dirs == con_dir.dirs();
        grid.lemma_graph();
        lemma_rect_cells(dims.0 as nat, dims.1 as nat, grid.marks());
        assert(dims.1 * dims.0 == dims.0 * dims.1) by (nonlinear_arith);
        if dims.0 == 0 || dims.1 == 0 {
            assert(grid.cells() =~= Set::<Position2d>::empty());
            assert(dims.1 * dims.0 == 0) by (nonlinear_arith)
                requires
                    dims.0 == 0 || dims.1 == 0,
            ;
        } else {
            assert(grid.cells().contains(corner));
            let rank = |p: Position2d| corner_rank(dims, dirs, p);
            assert forall|p: Position2d|
                #![trigger grid.cells().contains(p)]
                grid.cells().contains(p) && p != corner implies exists|q: Position2d| #[trigger]
                grid.links().contains((p, q)) && rank(q) < rank(p) by {
                assert(done_before(p, dims.1 as int, 0));
                let q = choose|q: Position2d| #[trigger]
                    grid.links().contains((p, q)) && is_ahead(grid, dirs, p, q);
                Self::lemma_ahead(grid, con_dir, p, q);
                assert(grid.links().contains((p, q)) && rank(q) < rank(p));
            }
            assert(flows_down(grid, corner, rank));
            lemma_flow_perfect(grid, corner, rank);
        }
    }
}

impl RectMazeGenerator<NoMask> for BTreeMazeGenerator {
    open spec fn makes_trees(&self) -> bool {
        true
    }

    fn generate(&self, mut grid: RectGrid<NoMask>, rng: &mut RandomSource) -> (maze: RectMaze)
        ensures
            maze matches RectMaze::NoMask(made) && btree_state(
                &made,
                self.bias().dirs(),
                made.dims().1 as int,
                0,
            ),
    {
        self.carve(&mut grid, rng);
        RectMaze::NoMask(grid)
    }
}

impl BTreeMazeGenerator {
    /// Opens the passages in a grid that has none: from every cell but the
    /// corner one passage, to the neighbour along the row or to the
    /// neighbour along the column in the direction of the corner, and no
    /// other. The maze is perfect.
    pub fn carve(&self, grid: &mut RectGrid<NoMask>, rng: &mut RandomSource)
        requires
            old(grid).valid(),
            is_blank(old(grid)),
        ensures
            final(grid).valid(),
            final(grid).dims() == old(grid).dims(),
            final(grid).marks() == old(grid).marks(),
            btree_state(final(grid), self.bias().dirs(), final(grid).dims().1 as int, 0),
            is_perfect(final(grid)),
    {
        let (width, height) = grid.size();
        let (horz_dir, vert_dir) = self.con_dir.hv_dirs();
        let connect_dirs = [horz_dir, vert_dir];
        let ghost start = *grid;
        let ghost dirs = (horz_dir, vert_dir);
        proof {
            assert(btree_state(&*grid, dirs, 0, 0)) by {
                assert(0 * grid.dims().0 + 0 == 0) by (nonlinear_arith);
            }
        }
        let mut r_ind: usize = 0;
        while r_ind < height
            invariant
                r_ind <= height,
                (width, height) == grid.dims(),
                grid.dims() == start.dims(),
                grid.marks() == start.marks(),
                dirs == self.con_dir.dirs(),
                dirs == (horz_dir, vert_dir),
                connect_dirs@ == seq![horz_dir, vert_dir],
                btree_state(&*grid, dirs, r_ind as int, 0),
            decreases height - r_ind,
        {
            let mut c_ind: usize = 0;
            while c_ind < width
                invariant
                    r_ind < height,
                    c_ind <= width,
                    (width, height) == grid.dims(),
                    grid.dims() == start.dims(),
                    grid.marks() == start.marks(),
                    dirs == self.con_dir.dirs(),
                    dirs == (horz_dir, vert_dir),
                    connect_dirs@ == seq![horz_dir, vert_dir],
                    btree_state(&*grid, dirs, r_ind as int, c_ind as int),
                decreases width - c_ind,
            {
                let pos = RectPosition::new(r_ind, c_ind);
                let at_horz_border = grid.is_at_border(&pos, horz_dir);
                let at_vert_border = grid.is_at_border(&pos, vert_dir);
                let ghost before = *grid;
                let ghost mut chosen: Option<RectDirection> = None;
                proof {
                    assert(grid.has(pos));
                }
                if at_horz_border {
                    if !at_vert_border {
                        // Can only connect along the vertical direction.
                        grid.connect_to(&pos, vert_dir);
                        proof {
                            chosen = Some(vert_dir);
                        }
                    }
                } else if at_vert_border {
                    // Can only connect along the horizontal direction.
                    grid.connect_to(&pos, horz_dir);
                    proof {
                        chosen = Some(horz_dir);
                    }
                } else {
                    // Choose a direction equally likely to connect.
                    let rand_dir = connect_dirs[rng.below(2)];
                    grid.connect_to(&pos, rand_dir);
                    proof {
                        chosen = Some(rand_dir);
                    }
                }
                proof {
                    Self::lemma_cell_done(
                        &before,
                        &*grid,
                        dirs,
                        r_ind as int,
                        c_ind as int,
                        chosen,
                    );
                }
                c_ind += 1;
            }
            proof {
                Self::lemma_row_done(&*grid, dirs, r_ind as int);
            }
            r_ind += 1;
        }
        proof {
            Self::lemma_all_done(&*grid, dirs);
        }
    }
}

/// Whether `p` lies in the rows and columns of a region.
pub open spec fn in_region(p: Position2d, rows: Range<usize>, cols: Range<usize>) -> bool {
    rows.start <= p.0 < rows.end && cols.start <= p.1 < cols.end
}

/// The positions of a region.
pub open spec fn region_of(rows: Range<usize>, cols: Range<usize>) -> Set<Position2d> {
    Set::new(|p: Position2d| in_region(p, rows, cols))
}

/// No passage runs between two cells of the region.
#[verifier::opaque]
pub open spec fn region_is_blank(
    grid: &RectGrid<NoMask>,
    rows: Range<usize>,
    cols: Range<usize>,
) -> bool {
    forall|a: Position2d, b: Position2d| #[trigger]
        grid.links().contains((a, b)) ==> !(in_region(a, rows, cols) && in_region(b, rows, cols))
}

/// The region lies within the grid.
pub open spec fn region_fits(
    grid: &RectGrid<NoMask>,
    rows: Range<usize>,
    cols: Range<usize>,
) -> bool {
    rows.start <= rows.end <= grid.dims().1 && cols.start <= cols.end <= grid.dims().0
}

/// What the passages of `after` are to those of `before` when passages
/// have been opened inside a region: none is lost, every new one runs
/// between two cells of the region, and every two cells of the region can
/// reach each other.
#[verifier::opaque]
pub open spec fn region_is_joined(
    before: &RectGrid<NoMask>,
    after: &RectGrid<NoMask>,
    rows: Range<usize>,
    cols: Range<usize>,
) -> bool {
    &&& after.valid()
    &&& after.dims() == before.dims()
    &&& after.marks() == before.marks()
    &&& before.links().subset_of(after.links())
    &&& forall|a: Position2d, b: Position2d| #[trigger]
        after.links().contains((a, b)) ==> before.links().contains((a, b)) || (in_region(
            a,
            rows,
            cols,
        ) && in_region(b, rows, cols))
    &&& forall|a: Position2d, b: Position2d|
        in_region(a, rows, cols) && in_region(b, rows, cols) ==> #[trigger] joined(
            after.links(),
            a,
            b,
        )
}

/// One passage fewer than the region has cells; none for a region without
/// cells.
pub open spec fn tree_links(rows: Range<usize>, cols: Range<usize>) -> nat {
    if rows.start >= rows.end || cols.start >= cols.end {
        0
    } else {
        ((rows.end - rows.start) * (cols.end - cols.start) - 1) as nat
    }
}

/// `b` is the neighbour to the south or to the east of `a`, which comes
/// before the place `(r, c)`, within the region.
pub open spec fn room_opened(
    a: Position2d,
    b: Position2d,
    rows: Range<usize>,
    cols: Range<usize>,
    r: int,
    c: int,
) -> bool {
    &&& in_region(a, rows, cols)
    &&& in_region(b, rows, cols)
    &&& done_before(a, r, c)
    &&& (b.0 == a.0 + 1 && b.1 == a.1) || (b.0 == a.0 && b.1 == a.1 + 1)
}

/// The state while the walls inside a room are taken away, before the cell
/// at `(r, c)` is dealt with.
pub open spec fn room_state(
    before: &RectGrid<NoMask>,
    grid: &RectGrid<NoMask>,
    rows: Range<usize>,
    cols: Range<usize>,
    r: int,
    c: int,
    added: nat,
) -> bool {
    &&& grid.valid()
    &&& grid.dims() == before.dims()
    &&& grid.marks() == before.marks()
    &&& forall|a: Position2d, b: Position2d| #[trigger]
        grid.links().contains((a, b)) <==> before.links().contains((a, b)) || room_opened(
            a,
            b,
            rows,
            cols,
            r,
            c,
        ) || room_opened(b, a, rows, cols, r, c)
    &&& grid.links_n() == before.links_n() + added
}

/// Whether `b` is the position to the south or to the east of `a`.
pub open spec fn next_after(a: Position2d, b: Position2d) -> bool {
    (b.0 == a.0 + 1 && b.1 == a.1) || (b.0 == a.0 && b.1 == a.1 + 1)
}

/// Whether a region of so many rows and columns is left as a room: a single
/// row or column, or no larger than the limits.
pub open spec fn is_room_size(rows_n: int, cols_n: int, max: (usize, usize)) -> bool {
    rows_n <= 1 || cols_n <= 1 || (rows_n <= max.0 && cols_n <= max.1)
}

/// Whether there is a passage across the wall behind the row `cut`, in the
/// column `at` (for `level`), or across the wall behind the column `cut`,
/// in the row `at` (otherwise).
pub open spec fn across(
    links: Set<(Position2d, Position2d)>,
    cut: usize,
    at: usize,
    level: bool,
) -> bool {
    if level {
        links.contains((Position2d(cut, at), Position2d((cut + 1) as usize, at)))
    } else {
        links.contains((Position2d(at, cut), Position2d(at, (cut + 1) as usize)))
    }
}

/// A wall cuts the region in two behind the row `cut` (for `level`) or
/// behind the column `cut` (otherwise), with one passage across it: at the
/// column or row `gap`.
pub open spec fn wall_with_gap(
    links: Set<(Position2d, Position2d)>,
    rows: Range<usize>,
    cols: Range<usize>,
    cut: usize,
    gap: usize,
    level: bool,
) -> bool {
    if level {
        &&& rows.start <= cut
        &&& cut + 1 < rows.end
        &&& cols.start <= gap < cols.end
        &&& forall|c: usize|
            cols.start <= c < cols.end ==> (#[trigger] across(links, cut, c, level) <==> c == gap)
    } else {
        &&& cols.start <= cut
        &&& cut + 1 < cols.end
        &&& rows.start <= gap < rows.end
        &&& forall|r: usize|
            rows.start <= r < rows.end ==> (#[trigger] across(links, cut, r, level) <==> r == gap)
    }
}

/// The passages inside a region are those that recursive division leaves:
/// a region that is a room has no wall inside it; any other is cut in two
/// by a wall with one gap, across its rows where it has more rows than
/// columns and across its columns otherwise, and each part is divided in
/// its turn.
pub open spec fn is_divided(
    links: Set<(Position2d, Position2d)>,
    rows: Range<usize>,
    cols: Range<usize>,
    max: (usize, usize),
) -> bool
    decreases (rows.end - rows.start) + (cols.end - cols.start),
{
    let rows_n = rows.end - rows.start;
    let cols_n = cols.end - cols.start;
    if is_room_size(rows_n, cols_n, max) {
        forall|a: Position2d, b: Position2d|
            in_region(a, rows, cols) && in_region(b, rows, cols) && next_after(a, b)
                ==> #[trigger] links.contains((a, b))
    } else if rows_n > cols_n {
        exists|cut: usize, gap: usize|
            {
                &&& #[trigger] wall_with_gap(links, rows, cols, cut, gap, true)
                &&& is_divided(links, rows.start..((cut + 1) as usize), cols, max)
                &&& is_divided(links, ((cut + 1) as usize)..rows.end, cols, max)
            }
    } else {
        exists|cut: usize, gap: usize|
            {
                &&& #[trigger] wall_with_gap(links, rows, cols, cut, gap, false)
                &&& is_divided(links, rows, cols.start..((cut + 1) as usize), max)
                &&& is_divided(links, rows, ((cut + 1) as usize)..cols.end, max)
            }
    }
}

/// Whether a region is divided depends on the passages between its own
/// cells only.
pub proof fn lemma_divided_frame(
    links: Set<(Position2d, Position2d)>,
    other: Set<(Position2d, Position2d)>,
    rows: Range<usize>,
    cols: Range<usize>,
    max: (usize, usize),
)
    requires
        is_divided(links, rows, cols, max),
        forall|a: Position2d, b: Position2d|
            in_region(a, rows, cols) && in_region(b, rows, cols) ==> (links.contains((a, b))
                <==> #[trigger] other.contains((a, b))),
    ensures
        is_divided(other, rows, cols, max),
    decreases (rows.end - rows.start) + (cols.end - cols.start),
{
    let rows_n = rows.end - rows.start;
    let cols_n = cols.end - cols.start;
    if is_room_size(rows_n, cols_n, max) {
    } else if rows_n > cols_n {
        let (cut, gap) = choose|cut: usize, gap: usize|
            {
                &&& #[trigger] wall_with_gap(links, rows, cols, cut, gap, true)
                &&& is_divided(links, rows.start..((cut + 1) as usize), cols, max)
                &&& is_divided(links, ((cut + 1) as usize)..rows.end, cols, max)
            };
        lemma_divided_frame(links, other, rows.start..((cut + 1) as usize), cols, max);
        lemma_divided_frame(links, other, ((cut + 1) as usize)..rows.end, cols, max);
        assert forall|c: usize| cols.start <= c < cols.end implies (#[trigger] across(
            other,
            cut,
            c,
            true,
        ) <==> c == gap) by {
            assert(in_region(Position2d(cut, c), rows, cols));
            assert(in_region(Position2d((cut + 1) as usize, c), rows, cols));
            assert(across(links, cut, c, true) <==> c == gap);
        }
        assert(wall_with_gap(other, rows, cols, cut, gap, true));
    } else {
        let (cut, gap) = choose|cut: usize, gap: usize|
            {
                &&& #[trigger] wall_with_gap(links, rows, cols, cut, gap, false)
                &&& is_divided(links, rows, cols.start..((cut + 1) as usize), max)
                &&& is_divided(links, rows, ((cut + 1) as usize)..cols.end, max)
            };
        lemma_divided_frame(links, other, rows, cols.start..((cut + 1) as usize), max);
        lemma_divided_frame(links, other, rows, ((cut + 1) as usize)..cols.end, max);
        assert forall|r: usize| rows.start <= r < rows.end implies (#[trigger] across(
            other,
            cut,
            r,
            false,
        ) <==> r == gap) by {
            assert(in_region(Position2d(r, cut), rows, cols));
            assert(in_region(Position2d(r, (cut + 1) as usize), rows, cols));
            assert(across(links, cut, r, false) <==> r == gap);
        }
        assert(wall_with_gap(other, rows, cols, cut, gap, false));
    }
}

/// Where every room is a single row or column, division leaves no block of
/// two by two cells with all four passages between them open.
pub proof fn lemma_no_open_block(
    links: Set<(Position2d, Position2d)>,
    rows: Range<usize>,
    cols: Range<usize>,
    max: (usize, usize),
    r: usize,
    c: usize,
)
    requires
        is_divided(links, rows, cols, max),
        max.0 <= 1 || max.1 <= 1,
        in_region(Position2d(r, c), rows, cols),
        in_region(Position2d((r + 1) as usize, (c + 1) as usize), rows, cols),
        r < usize::MAX,
        c < usize::MAX,
    ensures
        !(across(links, r, c, true) && across(links, r, (c + 1) as usize, true) && across(
            links,
            c,
            r,
            false,
        ) && across(links, c, (r + 1) as usize, false)),
    decreases (rows.end - rows.start) + (cols.end - cols.start),
{
    let rows_n = rows.end - rows.start;
    let cols_n = cols.end - cols.start;
    if is_room_size(rows_n, cols_n, max) {
    } else if rows_n > cols_n {
        let (cut, gap) = choose|cut: usize, gap: usize|
            {
                &&& #[trigger] wall_with_gap(links, rows, cols, cut, gap, true)
                &&& is_divided(links, rows.start..((cut + 1) as usize), cols, max)
                &&& is_divided(links, ((cut + 1) as usize)..rows.end, cols, max)
            };
        if r < cut {
            lemma_no_open_block(links, rows.start..((cut + 1) as usize), cols, max, r, c);
        } else if r > cut {
            lemma_no_open_block(links, ((cut + 1) as usize)..rows.end, cols, max, r, c);
        } else {
            assert(across(links, cut, c, true) <==> c == gap);
            assert(across(links, cut, (c + 1) as usize, true) <==> c + 1 == gap);
        }
    } else {
        let (cut, gap) = choose|cut: usize, gap: usize|
            {
                &&& #[trigger] wall_with_gap(links, rows, cols, cut, gap, false)
                &&& is_divided(links, rows, cols.start..((cut + 1) as usize), max)
                &&& is_divided(links, rows, ((cut + 1) as usize)..cols.end, max)
            };
        if c < cut {
            lemma_no_open_block(links, rows, cols.start..((cut + 1) as usize), max, r, c);
        } else if c > cut {
            lemma_no_open_block(links, rows, ((cut + 1) as usize)..cols.end, max, r, c);
        } else {
            assert(across(links, cut, r, false) <==> r == gap);
            assert(across(links, cut, (r + 1) as usize, false) <==> r + 1 == gap);
        }
    }
}

/// Cuts the rectangle in two by a wall with one gap, and each part again,
/// until a part is a single row or column, or no larger than a room may be;
/// such a part loses all the walls inside it.
#[derive(Debug, Clone, Copy, PartialEq, Eq, PartialOrd, Ord, Hash)]
pub struct RecursiveDivisionMazeGenerator {
    room_max_cols_n: usize,
    room_max_rows_n: usize,
}

impl RectMazeGenerator<NoMask> for RecursiveDivisionMazeGenerator {
    open spec fn makes_trees(&self) -> bool {
        self.thin_rooms()
    }

    fn generate(&self, mut grid: RectGrid<NoMask>, rng: &mut RandomSource) -> (maze: RectMaze)
        ensures
            maze matches RectMaze::NoMask(made) && is_divided(
                made.links(),
                0..made.dims().1,
                0..made.dims().0,
                self.room_max(),
            ),
    {
        let (width, height) = grid.size();
        let ghost before = grid;
        proof {
            reveal(region_is_blank);
        }
        self.divide(&mut grid, 0..height, 0..width, rng);
        proof {
            reveal(region_is_joined);
            grid.lemma_graph();
            lemma_rect_cells(width as nat, height as nat, grid.marks());
            assert(height * width == width * height) by (nonlinear_arith);
            if width == 0 || height == 0 {
                assert(width * height == 0) by (nonlinear_arith)
                    requires
                        width == 0 || height == 0,
                ;
            }
            assert forall|a: Position2d, b: Position2d|
                grid.cells().contains(a) && grid.cells().contains(b) implies #[trigger] joined(
                grid.links(),
                a,
                b,
            ) by {
                assert(in_region(a, 0..height, 0..width) && in_region(b, 0..height, 0..width));
            }
        }
        RectMaze::NoMask(grid)
    }
}

impl RecursiveDivisionMazeGenerator {
    /// The largest number of rows and of columns that a room may have.
    pub closed spec fn room_max(&self) -> (usize, usize) {
        (self.room_max_rows_n, self.room_max_cols_n)
    }

    /// Whether every room is a single row or a single column of cells, so
    /// that the maze is perfect.
    pub open spec fn thin_rooms(&self) -> bool {
        self.room_max().0 <= 1 || self.room_max().1 <= 1
    }

    /// A generator that leaves rooms of at most so many rows and columns.
    pub fn new(room_max_rows_n: usize, room_max_cols_n: usize) -> (made: Self)
        ensures
            made.room_max() == (room_max_rows_n, room_max_cols_n),
    {
        Self { room_max_cols_n, room_max_rows_n }
    }

    /// Whether a region of so many rows and columns is left as a room.
    pub open spec fn room(&self, rows_n: int, cols_n: int) -> bool {
        is_room_size(rows_n, cols_n, self.room_max())
    }

    /// Opens passages inside a region that has none, as recursive division
    /// does: a room loses every wall inside it; any other region is cut in
    /// two by a wall with one gap, and each part is divided in its turn.
    /// Every cell of the region can then reach every other. No passage is
    /// opened elsewhere; where every room is a single row or column, the
    /// passages are one fewer than the region's cells.
    #[verifier::rlimit(50)]
    pub fn divide(
        &self,
        grid: &mut RectGrid<NoMask>,
        row_range: Range<usize>,
        col_range: Range<usize>,
        rng: &mut RandomSource,
    )
        requires
            old(grid).valid(),
            region_fits(old(grid), row_range, col_range),
            region_is_blank(old(grid), row_range, col_range),
        ensures
            region_is_joined(old(grid), final(grid), row_range, col_range),
            is_divided(final(grid).links(), row_range, col_range, self.room_max()),
            self.thin_rooms() ==> final(grid).links_n() == old(grid).links_n() + tree_links(
                row_range,
                col_range,
            ),
        decreases (row_range.end - row_range.start) + (col_range.end - col_range.start),
    {
        let rows_n = row_range.end - row_range.start;
        let cols_n = col_range.end - col_range.start;
        let ghost grid0 = *grid;
        if self.is_room(row_range.start..row_range.end, col_range.start..col_range.end) {
            // Break all the walls in the current room(given ranges) to make
            // a room.
            Self::connect_all(
                grid,
                row_range.start..row_range.end,
                col_range.start..col_range.end,
            );
            proof {
                Self::lemma_room_divided(
                    &grid0,
                    &*grid,
                    row_range,
                    col_range,
                    self.room_max(),
                    (grid.links_n() - grid0.links_n()) as nat,
                );
                if self.thin_rooms() && rows_n > 0 && cols_n > 0 {
                    assert(rows_n == 1 || cols_n == 1);
                    assert(rows_n * cols_n == if rows_n == 1 {
                        cols_n
                    } else {
                        rows_n
                    }) by (nonlinear_arith)
                        requires
                            rows_n == 1 || cols_n == 1,
                    ;
                }
            }
            return ;
        }
        if rows_n > cols_n {
            // Divide horizontally
            let upper_last_row = row_range.start + rng.below(rows_n - 1);
            let break_col = col_range.start + rng.below(cols_n);
            let ghost upper = (row_range.start)..((upper_last_row + 1) as usize);
            let ghost lower = ((upper_last_row + 1) as usize)..(row_range.end);
            let ghost from = Position2d(upper_last_row, break_col);
            let ghost to = Position2d((upper_last_row + 1) as usize, break_col);
            Self::open_gap(
                grid,
                &RectPosition::new(upper_last_row, break_col),
                RectDirection::South,
                Ghost(row_range),
                Ghost(col_range),
            );
            let ghost grid1 = *grid;
            proof {
                Self::lemma_part_blank(
                    &grid0,
                    &grid1,
                    row_range,
                    col_range,
                    upper,
                    col_range,
                    from,
                    to,
                );
            }
            // Divide the two new areas recursively.
            self.divide(
                grid,
                row_range.start..(upper_last_row + 1),
                col_range.start..col_range.end,
                rng,
            );
            let ghost grid2 = *grid;
            proof {
                Self::lemma_part_blank(
                    &grid0,
                    &grid1,
                    row_range,
                    col_range,
                    lower,
                    col_range,
                    from,
                    to,
                );
                Self::lemma_other_blank(&grid1, &grid2, upper, col_range, lower, col_range);
                Self::lemma_still_fits(&grid0, &grid1, &grid2, upper, col_range);
            }
            self.divide(
                grid,
                (upper_last_row + 1)..row_range.end,
                col_range.start..col_range.end,
                rng,
            );
            proof {
                Self::lemma_divided(
                    &grid0,
                    &grid1,
                    &grid2,
                    &*grid,
                    row_range,
                    col_range,
                    upper,
                    col_range,
                    lower,
                    col_range,
                    from,
                    to,
                );
                Self::lemma_cut_divided(
                    &grid0,
                    &grid1,
                    &grid2,
                    &*grid,
                    row_range,
                    col_range,
                    upper,
                    col_range,
                    lower,
                    col_range,
                    from,
                    to,
                    self.room_max(),
                    upper_last_row,
                    break_col,
                    true,
                );
                if self.thin_rooms() {
                    Self::lemma_tree_links(row_range, col_range, upper, col_range, lower, col_range);
                }
            }
        } else {
            // Divide vertically
            let left_last_col = col_range.start + rng.below(cols_n - 1);
            let break_row = row_range.start + rng.below(rows_n);
            let ghost left = (col_range.start)..((left_last_col + 1) as usize);
            let ghost right = ((left_last_col + 1) as usize)..(col_range.end);
            let ghost from = Position2d(break_row, left_last_col);
            let ghost to = Position2d(break_row, (left_last_col + 1) as usize);
            Self::open_gap(
                grid,
                &RectPosition::new(break_row, left_last_col),
                RectDirection::East,
                Ghost(row_range),
                Ghost(col_range),
            );
            let ghost grid1 = *grid;
            proof {
                Self::lemma_part_blank(
                    &grid0,
                    &grid1,
                    row_range,
                    col_range,
                    row_range,
                    left,
                    from,
                    to,
                );
            }
            // Divide the two new areas recursively.
            self.divide(
                grid,
                row_range.start..row_range.end,
                col_range.start..(left_last_col + 1),
                rng,
            );
            let ghost grid2 = *grid;
            proof {
                Self::lemma_part_blank(
                    &grid0,
                    &grid1,
                    row_range,
                    col_range,
                    row_range,
                    right,
                    from,
                    to,
                );
                Self::lemma_other_blank(&grid1, &grid2, row_range, left, row_range, right);
                Self::lemma_still_fits(&grid0, &grid1, &grid2, row_range, left);
            }
            self.divide(
                grid,
                row_range.start..row_range.end,
                (left_last_col + 1)..col_range.end,
                rng,
            );
            proof {
                Self::lemma_divided(
                    &grid0,
                    &grid1,
                    &grid2,
                    &*grid,
                    row_range,
                    col_range,
                    row_range,
                    left,
                    row_range,
                    right,
                    from,
                    to,
                );
                Self::lemma_cut_divided(
                    &grid0,
                    &grid1,
                    &grid2,
                    &*grid,
                    row_range,
                    col_range,
                    row_range,
                    left,
                    row_range,
                    right,
                    from,
                    to,
                    self.room_max(),
                    left_last_col,
                    break_row,
                    false,
                );
                if self.thin_rooms() {
                    Self::lemma_tree_links(row_range, col_range, row_range, left, row_range, right);
                }
            }
        }
    }

    /// Opens the passage from a cell of a region to its neighbour to the
    /// south or to the east, which lies in the region too; the region has no
    /// passage yet.
    fn open_gap(
        grid: &mut RectGrid<NoMask>,
        pos: &RectPosition,
        dir: RectDirection,
        Ghost(rows): Ghost<Range<usize>>,
        Ghost(cols): Ghost<Range<usize>>,
    )
        requires
            old(grid).valid(),
            region_fits(old(grid), rows, cols),
            region_is_blank(old(grid), rows, cols),
            dir == RectDirection::South || dir == RectDirection::East,
            in_region(pos.pos(), rows, cols),
            in_region(pos.step(dir)->0.pos(), rows, cols),
        ensures
            final(grid).valid(),
            final(grid).dims() == old(grid).dims(),
            final(grid).marks() == old(grid).marks(),
            final(grid).links() == with_pair(
                old(grid).links(),
                pos.pos(),
                pos.step(dir)->0.pos(),
            ),
            final(grid).links_n() == old(grid).links_n() + 1,
    {
        proof {
            assert(grid.neighbor_at(*pos, dir) == pos.step(dir));
            grid.lemma_open_toward(*pos, dir);
            Self::lemma_gap_new(&*grid, rows, cols, pos.pos(), pos.step(dir)->0.pos());
        }
        grid.connect_to(pos, dir);
    }

    /// A region fits a grid as it fitted the grid before passages were
    /// opened.
    proof fn lemma_still_fits(
        grid0: &RectGrid<NoMask>,
        grid1: &RectGrid<NoMask>,
        grid2: &RectGrid<NoMask>,
        rows: Range<usize>,
        cols: Range<usize>,
    )
        requires
            grid1.dims() == grid0.dims(),
            region_is_joined(grid1, grid2, rows, cols),
        ensures
            grid2.valid(),
            grid2.dims() == grid0.dims(),
    {
        reveal(region_is_joined);
    }

    /// The passages of a tree on each of two parts, and one more, are the
    /// passages of a tree on the whole.
    proof fn lemma_tree_links(
        rows: Range<usize>,
        cols: Range<usize>,
        rows1: Range<usize>,
        cols1: Range<usize>,
        rows2: Range<usize>,
        cols2: Range<usize>,
    )
        requires
            rows.start < rows.end,
            cols.start < cols.end,
            (rows1 == rows && rows2 == rows && cols1.start == cols.start && cols1.end
                == cols2.start && cols2.end == cols.end && cols1.start < cols1.end < cols2.end)
                || (cols1 == cols && cols2 == cols && rows1.start == rows.start && rows1.end
                == rows2.start && rows2.end == rows.end && rows1.start < rows1.end < rows2.end),
        ensures
            tree_links(rows, cols) == tree_links(rows1, cols1) + tree_links(rows2, cols2) + 1,
    {
        let h = rows.end - rows.start;
        let w = cols.end - cols.start;
        let h1 = rows1.end - rows1.start;
        let w1 = cols1.end - cols1.start;
        let h2 = rows2.end - rows2.start;
        let w2 = cols2.end - cols2.start;
        assert(h1 * w1 + h2 * w2 == h * w && h1 * w1 >= 1 && h2 * w2 >= 1) by (nonlinear_arith)
            requires
                (h1 == h && h2 == h && w1 + w2 == w && w1 >= 1 && w2 >= 1 && h >= 1) || (w1 == w
                    && w2 == w && h1 + h2 == h && h1 >= 1 && h2 >= 1 && w >= 1),
        ;
    }

    /// No passage runs yet between two cells of a region without
    /// passages.
    proof fn lemma_gap_new(
        grid: &RectGrid<NoMask>,
        rows: Range<usize>,
        cols: Range<usize>,
        from: Position2d,
        to: Position2d,
    )
        requires
            region_is_blank(grid, rows, cols),
            in_region(from, rows, cols),
            in_region(to, rows, cols),
        ensures
            !grid.links().contains((from, to)),
    {
        reveal(region_is_blank);
    }

    /// A part of a region without passages has none after a passage has
    /// been opened between two cells that are not both in the part.
    proof fn lemma_part_blank(
        before: &RectGrid<NoMask>,
        after: &RectGrid<NoMask>,
        rows: Range<usize>,
        cols: Range<usize>,
        part_rows: Range<usize>,
        part_cols: Range<usize>,
        from: Position2d,
        to: Position2d,
    )
        requires
            region_is_blank(before, rows, cols),
            after.links() == with_pair(before.links(), from, to),
            forall|p: Position2d|
                in_region(p, part_rows, part_cols) ==> #[trigger] in_region(p, rows, cols),
            !(in_region(from, part_rows, part_cols) && in_region(to, part_rows, part_cols)),
        ensures
            region_is_blank(after, part_rows, part_cols),
    {
        reveal(region_is_blank);
        assert forall|a: Position2d, b: Position2d| #[trigger]
            after.links().contains((a, b)) implies !(in_region(a, part_rows, part_cols)
            && in_region(b, part_rows, part_cols)) by {
            if before.links().contains((a, b)) {
                if in_region(a, part_rows, part_cols) && in_region(b, part_rows, part_cols) {
                    assert(in_region(a, rows, cols) && in_region(b, rows, cols));
                }
            }
        }
    }

    /// A region without passages has none after another region, apart from
    /// it, has been joined.
    proof fn lemma_other_blank(
        before: &RectGrid<NoMask>,
        after: &RectGrid<NoMask>,
        rows1: Range<usize>,
        cols1: Range<usize>,
        rows2: Range<usize>,
        cols2: Range<usize>,
    )
        requires
            region_is_blank(before, rows2, cols2),
            region_is_joined(before, after, rows1, cols1),
            forall|p: Position2d|
                !(#[trigger] in_region(p, rows1, cols1) && in_region(p, rows2, cols2)),
        ensures
            region_is_blank(after, rows2, cols2),
    {
        reveal(region_is_blank);
        reveal(region_is_joined);
        assert forall|a: Position2d, b: Position2d| #[trigger]
            after.links().contains((a, b)) implies !(in_region(a, rows2, cols2) && in_region(
            b,
            rows2,
            cols2,
        )) by {
            if !before.links().contains((a, b)) {
                assert(in_region(a, rows1, cols1));
            }
        }
    }

    /// A region whose two parts have each been joined, after a passage was
    /// opened from a cell of the one to a cell of the other, is joined.
    proof fn lemma_divided(
        grid0: &RectGrid<NoMask>,
        grid1: &RectGrid<NoMask>,
        grid2: &RectGrid<NoMask>,
        grid3: &RectGrid<NoMask>,
        rows: Range<usize>,
        cols: Range<usize>,
        rows1: Range<usize>,
        cols1: Range<usize>,
        rows2: Range<usize>,
        cols2: Range<usize>,
        from: Position2d,
        to: Position2d,
    )
        requires
            grid1.valid(),
            grid1.dims() == grid0.dims(),
            grid1.marks() == grid0.marks(),
            grid1.links() == with_pair(grid0.links(), from, to),
            in_region(from, rows1, cols1),
            in_region(to, rows2, cols2),
            forall|p: Position2d|
                in_region(p, rows, cols) <==> in_region(p, rows1, cols1) || in_region(
                    p,
                    rows2,
                    cols2,
                ),
            region_is_joined(grid1, grid2, rows1, cols1),
            region_is_joined(grid2, grid3, rows2, cols2),
        ensures
            region_is_joined(grid0, grid3, rows, cols),
    {
        reveal(region_is_joined);
        let links = grid3.links();
        grid3.lemma_graph();
        assert(symmetric(links));
        lemma_joined_step(links, from, to);
        lemma_joined_step(links, to, from);
        assert forall|a: Position2d, b: Position2d|
            in_region(a, rows, cols) && in_region(b, rows, cols) implies #[trigger] joined(
            links,
            a,
            b,
        ) by {
            if in_region(a, rows1, cols1) {
                lemma_joined_grows(grid2.links(), links, a, from);
                if in_region(b, rows1, cols1) {
                    lemma_joined_grows(grid2.links(), links, a, b);
                } else {
                    lemma_joined_trans(links, a, from, to);
                    lemma_joined_trans(links, a, to, b);
                }
            } else {
                if in_region(b, rows1, cols1) {
                    lemma_joined_grows(grid2.links(), links, from, b);
                    lemma_joined_trans(links, a, to, from);
                    lemma_joined_trans(links, a, from, b);
                }
            }
        }
        assert forall|a: Position2d, b: Position2d| #[trigger]
            links.contains((a, b)) implies grid0.links().contains((a, b)) || (in_region(
            a,
            rows,
            cols,
        ) && in_region(b, rows, cols)) by {
            if grid2.links().contains((a, b)) {
                if grid1.links().contains((a, b)) {
                }
            }
        }
    }

    /// A room that has lost every wall inside it is divided.
    proof fn lemma_room_divided(
        before: &RectGrid<NoMask>,
        grid: &RectGrid<NoMask>,
        rows: Range<usize>,
        cols: Range<usize>,
        max: (usize, usize),
        added: nat,
    )
        requires
            room_state(before, grid, rows, cols, rows.end as int, cols.start as int, added),
            is_room_size(rows.end - rows.start, cols.end - cols.start, max),
        ensures
            is_divided(grid.links(), rows, cols, max),
    {
        assert forall|a: Position2d, b: Position2d|
            in_region(a, rows, cols) && in_region(b, rows, cols) && next_after(
                a,
                b,
            ) implies #[trigger] grid.links().contains((a, b)) by {
            assert(room_opened(a, b, rows, cols, rows.end as int, cols.start as int));
        }
    }

    /// A region without passages that got one passage across a wall, and
    /// whose two parts were then divided one after the other, is divided.
    proof fn lemma_cut_divided(
        grid0: &RectGrid<NoMask>,
        grid1: &RectGrid<NoMask>,
        grid2: &RectGrid<NoMask>,
        grid3: &RectGrid<NoMask>,
        rows: Range<usize>,
        cols: Range<usize>,
        rows1: Range<usize>,
        cols1: Range<usize>,
        rows2: Range<usize>,
        cols2: Range<usize>,
        from: Position2d,
        to: Position2d,
        max: (usize, usize),
        cut: usize,
        gap: usize,
        level: bool,
    )
        requires
            region_is_blank(grid0, rows, cols),
            grid1.links() == with_pair(grid0.links(), from, to),
            region_is_joined(grid1, grid2, rows1, cols1),
            region_is_joined(grid2, grid3, rows2, cols2),
            is_divided(grid2.links(), rows1, cols1, max),
            is_divided(grid3.links(), rows2, cols2, max),
            !is_room_size(rows.end - rows.start, cols.end - cols.start, max),
            level == (rows.end - rows.start > cols.end - cols.start),
            cut < usize::MAX,
            level ==> rows.start <= cut && cut + 1 < rows.end && cols.start <= gap < cols.end
                && rows1 == (rows.start..((cut + 1) as usize)) && cols1 == cols && rows2 == ((
            (cut + 1) as usize)..rows.end) && cols2 == cols && from == Position2d(cut, gap)
                && to == Position2d((cut + 1) as usize, gap),
            !level ==> cols.start <= cut && cut + 1 < cols.end && rows.start <= gap < rows.end
                && cols1 == (cols.start..((cut + 1) as usize)) && rows1 == rows && cols2 == ((
            (cut + 1) as usize)..cols.end) && rows2 == rows && from == Position2d(gap, cut)
                && to == Position2d(gap, (cut + 1) as usize),
        ensures
            is_divided(grid3.links(), rows, cols, max),
    {
        reveal(region_is_blank);
        reveal(region_is_joined);
        let links = grid3.links();
        lemma_divided_frame(grid2.links(), links, rows1, cols1, max);
        assert forall|at: usize|
            (if level {
                cols.start <= at < cols.end
            } else {
                rows.start <= at < rows.end
            }) implies (#[trigger] across(links, cut, at, level) <==> at == gap) by {
            let p = if level {
                Position2d(cut, at)
            } else {
                Position2d(at, cut)
            };
            let q = if level {
                Position2d((cut + 1) as usize, at)
            } else {
                Position2d(at, (cut + 1) as usize)
            };
            assert(in_region(p, rows, cols) && in_region(q, rows, cols));
            assert(in_region(p, rows1, cols1) && !in_region(p, rows2, cols2));
            assert(in_region(q, rows2, cols2) && !in_region(q, rows1, cols1));
            assert(!grid0.links().contains((p, q)));
            assert(links.contains((p, q)) <==> grid2.links().contains((p, q)));
            assert(grid2.links().contains((p, q)) <==> grid1.links().contains((p, q)));
            assert(grid1.links().contains((p, q)) <==> (p, q) == (from, to));
        }
        assert(wall_with_gap(links, rows, cols, cut, gap, level));
    }

    /// Whether the region is left as a room.
    pub fn is_room(&self, row_range: Range<usize>, col_range: Range<usize>) -> (room: bool)
        requires
            row_range.start <= row_range.end,
            col_range.start <= col_range.end,
        ensures
            room == self.room(
                row_range.end - row_range.start,
                col_range.end - col_range.start,
            ),
    {
        let rows_n = row_range.end - row_range.start;
        let cols_n = col_range.end - col_range.start;
        rows_n <= 1 || cols_n <= 1 || (rows_n <= self.room_max_rows_n && cols_n
            <= self.room_max_cols_n)
    }

    /// Takes away every wall inside a region that has no passage yet: every
    /// cell is joined to its neighbours to the south and to the east within
    /// the region. A single row or column of cells gets one passage fewer
    /// than it has cells.
    pub fn connect_all(
        grid: &mut RectGrid<NoMask>,
        row_range: Range<usize>,
        col_range: Range<usize>,
    )
        requires
            old(grid).valid(),
            region_fits(old(grid), row_range, col_range),
            region_is_blank(old(grid), row_range, col_range),
        ensures
            region_is_joined(old(grid), final(grid), row_range, col_range),
            room_state(
                old(grid),
                final(grid),
                row_range,
                col_range,
                row_range.end as int,
                col_range.start as int,
                (final(grid).links_n() - old(grid).links_n()) as nat,
            ),
            row_range.end - row_range.start <= 1 || col_range.end - col_range.start <= 1
                ==> final(grid).links_n() == old(grid).links_n() + tree_links(
                row_range,
                col_range,
            ),
    {
        let ghost start = *grid;
        if row_range.start >= row_range.end || col_range.start >= col_range.end {
            proof {
                reveal(region_is_joined);
                grid.lemma_graph();
                assert forall|a: Position2d, b: Position2d| #[trigger]
                    grid.links().contains((a, b)) <==> start.links().contains((a, b))
                        || room_opened(
                        a,
                        b,
                        row_range,
                        col_range,
                        row_range.end as int,
                        col_range.start as int,
                    ) || room_opened(
                        b,
                        a,
                        row_range,
                        col_range,
                        row_range.end as int,
                        col_range.start as int,
                    ) by {}
            }
            return ;
        }
        let end_row = row_range.end - 1;
        let end_col = col_range.end - 1;
        let ghost rows_n = (row_range.end - row_range.start) as int;
        let ghost cols_n = (col_range.end - col_range.start) as int;
        let ghost mut added: nat = 0;
        let mut row = row_range.start;
        while row < row_range.end
            invariant
                row_range.start <= row <= row_range.end,
                end_row == row_range.end - 1,
                end_col == col_range.end - 1,
                rows_n == row_range.end - row_range.start,
                cols_n == col_range.end - col_range.start,
                cols_n >= 1,
                rows_n >= 1,
                start.valid(),
                region_fits(&start, row_range, col_range),
                region_is_blank(&start, row_range, col_range),
                room_state(&start, &*grid, row_range, col_range, row as int, col_range.start as int, added),
                rows_n == 1 ==> added == if row == row_range.end {
                    cols_n - 1
                } else {
                    0
                },
                cols_n == 1 ==> added == if row == row_range.end {
                    rows_n - 1
                } else {
                    row - row_range.start
                },
            decreases row_range.end - row,
        {
            let mut col = col_range.start;
            while col < col_range.end
                invariant
                    row_range.start <= row < row_range.end,
                    col_range.start <= col <= col_range.end,
                    end_row == row_range.end - 1,
                    end_col == col_range.end - 1,
                    rows_n == row_range.end - row_range.start,
                    cols_n == col_range.end - col_range.start,
                    start.valid(),
                    region_fits(&start, row_range, col_range),
                    region_is_blank(&start, row_range, col_range),
                    room_state(&start, &*grid, row_range, col_range, row as int, col as int, added),
                    rows_n == 1 ==> added == if col == col_range.end {
                        cols_n - 1
                    } else {
                        col - col_range.start
                    },
                    cols_n == 1 ==> added == if row == end_row {
                        rows_n - 1
                    } else if col == col_range.end {
                        row - row_range.start + 1
                    } else {
                        row - row_range.start
                    },
                decreases col_range.end - col,
            {
                let pos = RectPosition::new(row, col);
                let ghost before = *grid;
                let ghost mut south = false;
                let ghost mut east = false;
                if row != end_row {
                    proof {
                        grid.lemma_open_toward(pos, RectDirection::South);
                    }
                    grid.connect_to(&pos, RectDirection::South);
                    proof {
                        south = true;
                        added = added + 1;
                    }
                }
                let ghost middle = *grid;
                if col != end_col {
                    proof {
                        grid.lemma_open_toward(pos, RectDirection::East);
                    }
                    grid.connect_to(&pos, RectDirection::East);
                    proof {
                        east = true;
                        added = added + 1;
                    }
                }
                proof {
                    Self::lemma_walls_gone(
                        &start,
                        &before,
                        &middle,
                        &*grid,
                        row_range,
                        col_range,
                        row as int,
                        col as int,
                        south,
                        east,
                    );
                }
                col += 1;
            }
            proof {
                Self::lemma_room_row(
                    &start,
                    &*grid,
                    row_range,
                    col_range,
                    row as int,
                    added,
                );
            }
            row += 1;
        }
        proof {
            Self::lemma_room_joined(&start, &*grid, row_range, col_range, added);
            if rows_n == 1 || cols_n == 1 {
                assert(rows_n * cols_n == if rows_n == 1 {
                    cols_n
                } else {
                    rows_n
                }) by (nonlinear_arith)
                    requires
                        rows_n == 1 || cols_n == 1,
                ;
            }
        }
    }

    /// The state at the end of a row of a room is the state at the start
    /// of the next.
    proof fn lemma_room_row(
        before: &RectGrid<NoMask>,
        grid: &RectGrid<NoMask>,
        rows: Range<usize>,
        cols: Range<usize>,
        r: int,
        added: nat,
    )
        requires
            room_state(before, grid, rows, cols, r, cols.end as int, added),
        ensures
            room_state(before, grid, rows, cols, r + 1, cols.start as int, added),
    {
        assert forall|a: Position2d, b: Position2d|
            room_opened(a, b, rows, cols, r, cols.end as int) == room_opened(
                a,
                b,
                rows,
                cols,
                r + 1,
                cols.start as int,
            ) by {}
    }

    /// The state holds on after the cell at `(r, c)` of a room has been
    /// joined to its neighbours to the south and to the east within the
    /// room.
    proof fn lemma_walls_gone(
        start: &RectGrid<NoMask>,
        before: &RectGrid<NoMask>,
        middle: &RectGrid<NoMask>,
        after: &RectGrid<NoMask>,
        rows: Range<usize>,
        cols: Range<usize>,
        r: int,
        c: int,
        south: bool,
        east: bool,
    )
        requires
            start.valid(),
            region_fits(start, rows, cols),
            region_is_blank(start, rows, cols),
            rows.start <= r < rows.end,
            cols.start <= c < cols.end,
            south == (r != rows.end - 1),
            east == (c != cols.end - 1),
            exists|added: nat| room_state(start, before, rows, cols, r, c, added),
            middle.valid(),
            middle.dims() == before.dims(),
            middle.marks() == before.marks(),
            middle.links() == if south {
                with_pair(
                    before.links(),
                    Position2d(r as usize, c as usize),
                    Position2d((r + 1) as usize, c as usize),
                )
            } else {
                before.links()
            },
            middle.links_n() == before.links_n() + if south && !before.links().contains(
                (Position2d(r as usize, c as usize), Position2d((r + 1) as usize, c as usize)),
            ) {
                1nat
            } else {
                0nat
            },
            after.valid(),
            after.dims() == before.dims(),
            after.marks() == before.marks(),
            after.links() == if east {
                with_pair(
                    middle.links(),
                    Position2d(r as usize, c as usize),
                    Position2d(r as usize, (c + 1) as usize),
                )
            } else {
                middle.links()
            },
            after.links_n() == middle.links_n() + if east && !middle.links().contains(
                (Position2d(r as usize, c as usize), Position2d(r as usize, (c + 1) as usize)),
            ) {
                1nat
            } else {
                0nat
            },
        ensures
            room_state(
                start,
                after,
                rows,
                cols,
                r,
                c + 1,
                (after.links_n() - start.links_n()) as nat,
            ),
            after.links_n() == before.links_n() + (if south {
                1nat
            } else {
                0nat
            }) + (if east {
                1nat
            } else {
                0nat
            }),
    {
        reveal(region_is_blank);
        let pos = Position2d(r as usize, c as usize);
        let below = Position2d((r + 1) as usize, c as usize);
        let right = Position2d(r as usize, (c + 1) as usize);
        assert forall|a: Position2d, b: Position2d|
            room_opened(a, b, rows, cols, r, c + 1) == (room_opened(a, b, rows, cols, r, c) || (a
                == pos && ((south && b == below) || (east && b == right)))) by {}
        if south {
            assert(!room_opened(pos, below, rows, cols, r, c));
            assert(!room_opened(below, pos, rows, cols, r, c));
        }
        if east {
            assert(!room_opened(pos, right, rows, cols, r, c));
            assert(!room_opened(right, pos, rows, cols, r, c));
        }
        assert forall|a: Position2d, b: Position2d| #[trigger]
            after.links().contains((a, b)) <==> start.links().contains((a, b)) || room_opened(
                a,
                b,
                rows,
                cols,
                r,
                c + 1,
            ) || room_opened(b, a, rows, cols, r, c + 1) by {
            assert(before.links().contains((a, b)) <==> start.links().contains((a, b))
                || room_opened(a, b, rows, cols, r, c) || room_opened(b, a, rows, cols, r, c));
        }
    }

    /// Once every cell of a room has been dealt with, every two of them can
    /// reach each other.
    proof fn lemma_room_joined(
        before: &RectGrid<NoMask>,
        grid: &RectGrid<NoMask>,
        rows: Range<usize>,
        cols: Range<usize>,
        added: nat,
    )
        requires
            before.valid(),
            region_fits(before, rows, cols),
            rows.start < rows.end,
            cols.start < cols.end,
            room_state(before, grid, rows, cols, rows.end as int, cols.start as int, added),
        ensures
            region_is_joined(before, grid, rows, cols),
    {
        reveal(region_is_joined);
        let links = grid.links();
        let region = region_of(rows, cols);
        let corner = Position2d((rows.end - 1) as usize, (cols.end - 1) as usize);
        let rank = |p: Position2d| ((rows.end - p.0) + (cols.end - p.1)) as nat;
        grid.lemma_graph();
        assert(symmetric(links));
        assert forall|p: Position2d|
            #![trigger region.contains(p)]
            region.contains(p) && p != corner implies exists|q: Position2d| #[trigger]
            links.contains((p, q)) && region.contains(q) && rank(q) < rank(p) by {
            let q = if p.1 != cols.end - 1 {
                Position2d(p.0, (p.1 + 1) as usize)
            } else {
                Position2d((p.0 + 1) as usize, p.1)
            };
            assert(room_opened(p, q, rows, cols, rows.end as int, cols.start as int));
            assert(links.contains((p, q)) && region.contains(q) && rank(q) < rank(p));
        }
        assert(flows_within(links, region, corner, rank));
        assert forall|a: Position2d, b: Position2d|
            in_region(a, rows, cols) && in_region(b, rows, cols) implies #[trigger] joined(
            links,
            a,
            b,
        ) by {
            assert(region.contains(a) && region.contains(b));
            lemma_flow_within(links, region, corner, rank, a);
            lemma_flow_within(links, region, corner, rank, b);
            lemma_joined_sym(links, b, corner);
            lemma_joined_trans(links, a, corner, b);
        }
    }
}

/// The column of the cell that is dealt with as number `k` of its row:
/// from the left where the passages lead east, from the right where they
/// lead west.
pub open spec fn sw_col(dims: (usize, usize), dirs: (RectDirection, RectDirection), k: int) -> int {
    if dirs.0 == RectDirection::West {
        dims.0 - 1 - k
    } else {
        k
    }
}

/// The cell of a row that is dealt with as number `k`.
pub open spec fn sw_cell(
    dims: (usize, usize),
    dirs: (RectDirection, RectDirection),
    row: int,
    k: int,
) -> Position2d {
    Position2d(row as usize, sw_col(dims, dirs, k) as usize)
}

/// As which number of its row a cell is dealt with.
pub open spec fn sw_index(
    dims: (usize, usize),
    dirs: (RectDirection, RectDirection),
    p: Position2d,
) -> int {
    sw_col(dims, dirs, p.1 as int)
}

/// How many rows a cell is away from the border that the passages along
/// the columns lead to.
pub open spec fn sw_depth(
    dims: (usize, usize),
    dirs: (RectDirection, RectDirection),
    p: Position2d,
) -> int {
    if dirs.1 == RectDirection::North {
        p.0 as int
    } else {
        dims.1 - 1 - p.0
    }
}

/// The neighbour of a cell in the row nearer to that border.
pub open spec fn sw_up(dirs: (RectDirection, RectDirection), p: Position2d) -> Position2d {
    if dirs.1 == RectDirection::North {
        Position2d((p.0 - 1) as usize, p.1)
    } else {
        Position2d((p.0 + 1) as usize, p.1)
    }
}

/// Whether `p` is a cell.
pub open spec fn sw_has(dims: (usize, usize), p: Position2d) -> bool {
    p.0 < dims.1 && p.1 < dims.0
}

/// Whether the cell `p` has been dealt with before number `k` of row `r`.
pub open spec fn sw_done(
    dims: (usize, usize),
    dirs: (RectDirection, RectDirection),
    p: Position2d,
    r: int,
    k: int,
) -> bool {
    p.0 < r || (p.0 == r && sw_index(dims, dirs, p) < k)
}

/// A cell of a closed run has its way out: the cell where the run was
/// closed has a passage to the row nearer to the border, every other cell
/// of the run a passage to the next cell of the run towards that one.
pub open spec fn sw_way_out(
    grid: &RectGrid<NoMask>,
    dirs: (RectDirection, RectDirection),
    outs: Map<Position2d, int>,
    p: Position2d,
) -> bool {
    let dims = grid.dims();
    let k = sw_index(dims, dirs, p);
    let out = outs[p];
    &&& outs.dom().contains(p)
    &&& 0 <= out < dims.0
    &&& k == out ==> grid.links().contains((p, sw_up(dirs, p)))
    &&& k < out ==> {
        let next = sw_cell(dims, dirs, p.0 as int, k + 1);
        grid.links().contains((p, next)) && outs.dom().contains(next) && outs[next] == out
    }
    &&& k > out ==> {
        let last = sw_cell(dims, dirs, p.0 as int, k - 1);
        grid.links().contains((p, last)) && outs.dom().contains(last) && outs[last] == out
    }
}

/// The passage between `a` and `b` is one that the algorithm has opened
/// from `a`: along the row from a cell dealt with, or to the row nearer the
/// border from a cell of a closed run.
pub open spec fn sw_opened(
    dims: (usize, usize),
    dirs: (RectDirection, RectDirection),
    a: Position2d,
    b: Position2d,
    r: int,
    k: int,
    s: int,
) -> bool {
    &&& sw_has(dims, a)
    &&& sw_has(dims, b)
    &&& (b == sw_cell(dims, dirs, a.0 as int, sw_index(dims, dirs, a) + 1) && sw_done(
        dims,
        dirs,
        a,
        r,
        k,
    )) || (b == sw_up(dirs, a) && sw_depth(dims, dirs, a) > 0 && sw_done(dims, dirs, a, r, s))
}

/// Every cell of the border row that has been dealt with, but the corner,
/// has a passage to the next cell of the row.
#[verifier::opaque]
pub open spec fn sw_border_ok(
    grid: &RectGrid<NoMask>,
    dirs: (RectDirection, RectDirection),
    r: int,
    k: int,
) -> bool {
    let dims = grid.dims();
    forall|p: Position2d|
        #![trigger sw_has(dims, p)]
        sw_has(dims, p) && sw_depth(dims, dirs, p) == 0 && sw_done(dims, dirs, p, r, k)
            && sw_index(dims, dirs, p) < dims.0 - 1 ==> grid.links().contains(
            (p, sw_cell(dims, dirs, p.0 as int, sw_index(dims, dirs, p) + 1)),
        )
}

/// Every cell of a closed run has its way out.
#[verifier::opaque]
pub open spec fn sw_closed_ok(
    grid: &RectGrid<NoMask>,
    dirs: (RectDirection, RectDirection),
    outs: Map<Position2d, int>,
    r: int,
    s: int,
) -> bool {
    let dims = grid.dims();
    &&& forall|p: Position2d|
        #![trigger sw_has(dims, p)]
        sw_has(dims, p) && sw_depth(dims, dirs, p) > 0 && sw_done(dims, dirs, p, r, s)
            ==> sw_way_out(grid, dirs, outs, p)
    &&& forall|p: Position2d| #[trigger]
        outs.dom().contains(p) ==> sw_has(dims, p) && sw_done(dims, dirs, p, r, s)
}

/// Number `j` of row `r` has a passage to the next cell of the row.
pub open spec fn sw_run_step(
    grid: &RectGrid<NoMask>,
    dirs: (RectDirection, RectDirection),
    r: int,
    j: int,
) -> bool {
    grid.links().contains(
        (sw_cell(grid.dims(), dirs, r, j), sw_cell(grid.dims(), dirs, r, j + 1)),
    )
}

/// Every cell of the open run has a passage to the next cell of the row.
#[verifier::opaque]
pub open spec fn sw_run_ok(
    grid: &RectGrid<NoMask>,
    dirs: (RectDirection, RectDirection),
    r: int,
    k: int,
    s: int,
) -> bool {
    let dims = grid.dims();
    forall|j: int|
        s <= j < k && sw_depth(dims, dirs, Position2d(r as usize, 0)) > 0 ==> #[trigger] sw_run_step(
            grid,
            dirs,
            r,
            j,
        )
}

/// Every passage is one that the algorithm has opened.
#[verifier::opaque]
pub open spec fn sw_links_ok(
    grid: &RectGrid<NoMask>,
    dirs: (RectDirection, RectDirection),
    r: int,
    k: int,
    s: int,
) -> bool {
    let dims = grid.dims();
    forall|a: Position2d, b: Position2d| #[trigger]
        grid.links().contains((a, b)) ==> sw_opened(dims, dirs, a, b, r, k, s) || sw_opened(
            dims,
            dirs,
            b,
            a,
            r,
            k,
            s,
        )
}

/// There is one passage for every cell dealt with but the corner.
pub open spec fn sw_count_ok(
    grid: &RectGrid<NoMask>,
    dirs: (RectDirection, RectDirection),
    r: int,
    k: int,
) -> bool {
    let dims = grid.dims();
    grid.links_n() + (if sw_has(dims, corner_of(dims, dirs)) && sw_done(
        dims,
        dirs,
        corner_of(dims, dirs),
        r,
        k,
    ) {
        1nat
    } else {
        0nat
    }) == r * dims.0 + k
}

/// The state of the sidewinder algorithm before it deals with number `k`
/// of row `r`, the run that is open having started at number `s`.
pub open spec fn sw_state(
    grid: &RectGrid<NoMask>,
    dirs: (RectDirection, RectDirection),
    outs: Map<Position2d, int>,
    r: int,
    k: int,
    s: int,
) -> bool {
    let dims = grid.dims();
    &&& grid.valid()
    &&& 0 <= s <= k <= dims.0
    &&& 0 <= r
    &&& sw_border_ok(grid, dirs, r, k)
    &&& sw_closed_ok(grid, dirs, outs, r, s)
    &&& sw_run_ok(grid, dirs, r, k, s)
    &&& sw_links_ok(grid, dirs, r, k, s)
    &&& sw_count_ok(grid, dirs, r, k)
    &&& r < dims.1 && sw_depth(dims, dirs, Position2d(r as usize, 0)) == 0 ==> s == 0
}

/// How far a cell is from the corner by the passages that lead there: along
/// the border row to the corner, and elsewhere along the run to the cell
/// where the run was closed.
pub open spec fn sw_rank(
    dims: (usize, usize),
    dirs: (RectDirection, RectDirection),
    outs: Map<Position2d, int>,
    p: Position2d,
) -> nat {
    let k = sw_index(dims, dirs, p);
    let depth = sw_depth(dims, dirs, p);
    if !sw_has(dims, p) {
        0
    } else if depth == 0 {
        (dims.0 - 1 - k) as nat
    } else {
        let out = if outs.dom().contains(p) && 0 <= outs[p] < dims.0 {
            outs[p]
        } else {
            k
        };
        (depth * 2 * dims.0 + if k < out {
            out - k
        } else {
            k - out
        }) as nat
    }
}

/// Goes through every row in runs of cells joined along the row. A run is
/// closed at random, and always at the end of the row, by a passage from a
/// random cell of the run to the row nearer to the border; the row at the
/// border is a single run that is never closed.
#[derive(Debug, Clone, Copy, PartialEq, Eq, PartialOrd, Ord, Hash)]
pub struct SidewinderMazeGenerator {
    con_dir: DiagonalDirection,
}

impl RectMazeGenerator<NoMask> for SidewinderMazeGenerator {
    open spec fn makes_trees(&self) -> bool {
        true
    }

    fn generate(&self, mut grid: RectGrid<NoMask>, rng: &mut RandomSource) -> (maze: RectMaze)
        ensures
            maze matches RectMaze::NoMask(made) && exists|outs: Map<Position2d, int>|
                sw_state(&made, self.bias().dirs(), outs, made.dims().1 as int, 0, 0),
    {
        self.carve(&mut grid, rng);
        RectMaze::NoMask(grid)
    }
}

impl SidewinderMazeGenerator {
    /// The corner that the passages lead to.
    pub closed spec fn bias(&self) -> DiagonalDirection {
        self.con_dir
    }

    /// A generator whose passages lead to the given corner.
    pub fn new(con_dir: DiagonalDirection) -> (made: Self)
        ensures
            made.bias() == con_dir,
    {
        Self { con_dir }
    }

    /// Opens the passages in a grid that has none: along the rows in the
    /// one direction, along the columns in the other, one passage for every
    /// cell but the corner. The maze is perfect.
    #[verifier::rlimit(50)]
    pub fn carve(&self, grid: &mut RectGrid<NoMask>, rng: &mut RandomSource)
        requires
            old(grid).valid(),
            is_blank(old(grid)),
        ensures
            final(grid).valid(),
            final(grid).dims() == old(grid).dims(),
            final(grid).marks() == old(grid).marks(),
            exists|outs: Map<Position2d, int>|
                sw_state(final(grid), self.bias().dirs(), outs, final(grid).dims().1 as int, 0, 0),
            is_perfect(final(grid)),
    {
        let (width, height) = grid.size();
        let (horz_dir, vert_dir) = self.con_dir.hv_dirs();
        let is_horz_reverse = match horz_dir {
            RectDirection::West => true,
            _ => false,
        };
        let ghost start = *grid;
        let ghost dirs = (horz_dir, vert_dir);
        let ghost dims = (width, height);
        let ghost mut outs: Map<Position2d, int> = Map::empty();
        proof {
            assert(sw_state(&*grid, dirs, outs, 0, 0, 0)) by {
                reveal(sw_border_ok);
                reveal(sw_closed_ok);
                reveal(sw_run_ok);
                reveal(sw_links_ok);
                assert(0 * grid.dims().0 + 0 == 0) by (nonlinear_arith);
            }
        }
        let mut r_ind: usize = 0;
        while r_ind < height
            invariant
                r_ind <= height,
                dims == (width, height),
                dims == grid.dims(),
                grid.dims() == start.dims(),
                grid.marks() == start.marks(),
                dirs == self.con_dir.dirs(),
                dirs == (horz_dir, vert_dir),
                is_horz_reverse == (horz_dir == RectDirection::West),
                sw_state(&*grid, dirs, outs, r_ind as int, 0, 0),
            decreases height - r_ind,
        {
            let mut run_start_ind = if is_horz_reverse {
                if width > 0 {
                    width - 1
                } else {
                    0
                }
            } else {
                0
            };
            let ghost mut run_start: int = 0;
            let mut c_ind: usize = 0;
            while c_ind < width
                invariant
                    r_ind < height,
                    c_ind <= width,
                    dims == (width, height),
                    dims == grid.dims(),
                    grid.dims() == start.dims(),
                    grid.marks() == start.marks(),
                    dirs == self.con_dir.dirs(),
                    dirs == (horz_dir, vert_dir),
                    is_horz_reverse == (horz_dir == RectDirection::West),
                    sw_state(&*grid, dirs, outs, r_ind as int, c_ind as int, run_start),
                    run_start < width ==> run_start_ind == sw_col(dims, dirs, run_start),
                    sw_depth(dims, dirs, Position2d(r_ind, 0)) > 0 ==> run_start == c_ind || c_ind
                        < width,
                decreases width - c_ind,
            {
                let ghost k = c_ind as int;
                let col = if is_horz_reverse {
                    // Start in reverse order, from the larger one to the
                    // smaller one.
                    width - 1 - c_ind
                } else {
                    c_ind
                };
                let pos = RectPosition::new(r_ind, col);
                let at_horz_border = grid.is_at_border(&pos, horz_dir);
                let at_vert_border = grid.is_at_border(&pos, vert_dir);
                let close_out = !at_vert_border && (at_horz_border || rng.coin());
                let ghost before = *grid;
                proof {
                    assert(grid.has(pos));
                    assert(at_horz_border == (k == width - 1));
                    assert(at_vert_border == (sw_depth(dims, dirs, pos.pos()) == 0));
                }
                if close_out {
                    // Select a position to break out(connect to other rows)
                    // equally likely in the current run.
                    let out_ind = if is_horz_reverse {
                        rng.between(col, run_start_ind)
                    } else {
                        rng.between(run_start_ind, col)
                    };
                    let ghost out = sw_col(dims, dirs, out_ind as int);
                    proof {
                        grid.lemma_open_toward(RectPosition { row: r_ind, col: out_ind }, vert_dir);
                    }
                    grid.connect_to(&RectPosition::new(r_ind, out_ind), vert_dir);
                    run_start_ind = if is_horz_reverse {
                        col.saturating_sub(1)
                    } else {
                        col + 1
                    };
                    proof {
                        let closed = Self::lemma_closed(
                            &before,
                            &*grid,
                            dirs,
                            outs,
                            r_ind as int,
                            k,
                            run_start,
                            out,
                        );
                        outs = closed;
                        run_start = k + 1;
                    }
                } else if !at_horz_border {
                    // if not going to connect to other rows, connect to the
                    // neighbor in the same row.
                    proof {
                        grid.lemma_open_toward(pos, horz_dir);
                    }
                    grid.connect_to(&pos, horz_dir);
                    proof {
                        Self::lemma_run_longer(
                            &before,
                            &*grid,
                            dirs,
                            outs,
                            r_ind as int,
                            k,
                            run_start,
                            true,
                        );
                    }
                } else {
                    proof {
                        Self::lemma_run_longer(
                            &before,
                            &*grid,
                            dirs,
                            outs,
                            r_ind as int,
                            k,
                            run_start,
                            false,
                        );
                    }
                }
                c_ind += 1;
            }
            proof {
                Self::lemma_sw_row(&*grid, dirs, outs, r_ind as int, run_start);
            }
            r_ind += 1;
        }
        proof {
            Self::lemma_sw_done(&*grid, self.con_dir, outs);
        }
    }

    /// A passage from a cell that is being dealt with is new.
    proof fn lemma_sw_new(
        grid: &RectGrid<NoMask>,
        dirs: (RectDirection, RectDirection),
        r: int,
        k: int,
        s: int,
        j: int,
        along: bool,
    )
        requires
            sw_links_ok(grid, dirs, r, k, s),
            exists|con_dir: DiagonalDirection| dirs == con_dir.dirs(),
            0 <= r < grid.dims().1,
            0 <= s <= j <= k < grid.dims().0,
            along ==> j == k < grid.dims().0 - 1,
            !along ==> sw_depth(grid.dims(), dirs, Position2d(r as usize, 0)) > 0,
        ensures
            !grid.links().contains(
                (
                    sw_cell(grid.dims(), dirs, r, j),
                    if along {
                        sw_cell(grid.dims(), dirs, r, j + 1)
                    } else {
                        sw_up(dirs, sw_cell(grid.dims(), dirs, r, j))
                    },
                ),
            ),
    {
        reveal(sw_links_ok);
        let dims = grid.dims();
        let from = sw_cell(dims, dirs, r, j);
        let to = if along {
            sw_cell(dims, dirs, r, j + 1)
        } else {
            sw_up(dirs, from)
        };
        assert(!sw_opened(dims, dirs, from, to, r, k, s));
        assert(!sw_opened(dims, dirs, to, from, r, k, s));
    }

    /// The passages stay of the algorithm's making when a cell has been
    /// dealt with.
    proof fn lemma_sw_links(
        before: &RectGrid<NoMask>,
        after: &RectGrid<NoMask>,
        dirs: (RectDirection, RectDirection),
        r: int,
        k: int,
        s: int,
        new_s: int,
        from: Position2d,
        to: Position2d,
    )
        requires
            sw_links_ok(before, dirs, r, k, s),
            after.dims() == before.dims(),
            0 <= r < before.dims().1,
            0 <= s <= k < before.dims().0,
            new_s == s || new_s == k + 1,
            after.links() == before.links() || after.links() == with_pair(
                before.links(),
                from,
                to,
            ),
            after.links() != before.links() ==> sw_opened(
                before.dims(),
                dirs,
                from,
                to,
                r,
                k + 1,
                new_s,
            ),
        ensures
            sw_links_ok(after, dirs, r, k + 1, new_s),
    {
        reveal(sw_links_ok);
        let dims = before.dims();
        assert forall|a: Position2d, b: Position2d| #[trigger]
            after.links().contains((a, b)) implies sw_opened(dims, dirs, a, b, r, k + 1, new_s)
            || sw_opened(dims, dirs, b, a, r, k + 1, new_s) by {
            if before.links().contains((a, b)) {
                assert(sw_opened(dims, dirs, a, b, r, k, s) || sw_opened(
                    dims,
                    dirs,
                    b,
                    a,
                    r,
                    k,
                    s,
                ));
            }
        }
    }

    /// The border row stays in order when a cell has been dealt with.
    proof fn lemma_sw_border(
        before: &RectGrid<NoMask>,
        after: &RectGrid<NoMask>,
        dirs: (RectDirection, RectDirection),
        r: int,
        k: int,
    )
        requires
            sw_border_ok(before, dirs, r, k),
            after.dims() == before.dims(),
            before.links().subset_of(after.links()),
            0 <= r < before.dims().1,
            0 <= k < before.dims().0,
            sw_depth(before.dims(), dirs, Position2d(r as usize, 0)) == 0 && k < before.dims().0
                - 1 ==> after.links().contains(
                (sw_cell(before.dims(), dirs, r, k), sw_cell(before.dims(), dirs, r, k + 1)),
            ),
        ensures
            sw_border_ok(after, dirs, r, k + 1),
    {
        reveal(sw_border_ok);
        let dims = before.dims();
        assert forall|p: Position2d|
            #![trigger sw_has(dims, p)]
            sw_has(dims, p) && sw_depth(dims, dirs, p) == 0 && sw_done(dims, dirs, p, r, k + 1)
                && sw_index(dims, dirs, p) < dims.0 - 1 implies after.links().contains(
            (p, sw_cell(dims, dirs, p.0 as int, sw_index(dims, dirs, p) + 1)),
        ) by {
            if sw_done(dims, dirs, p, r, k) {
                assert(before.links().contains(
                    (p, sw_cell(dims, dirs, p.0 as int, sw_index(dims, dirs, p) + 1)),
                ));
            } else {
                assert(p == sw_cell(dims, dirs, r, k));
            }
        }
    }

    /// The closed runs stay in order when more passages are opened.
    proof fn lemma_sw_kept(
        before: &RectGrid<NoMask>,
        after: &RectGrid<NoMask>,
        dirs: (RectDirection, RectDirection),
        outs: Map<Position2d, int>,
        r: int,
        s: int,
    )
        requires
            sw_closed_ok(before, dirs, outs, r, s),
            after.dims() == before.dims(),
            before.links().subset_of(after.links()),
        ensures
            sw_closed_ok(after, dirs, outs, r, s),
    {
        reveal(sw_closed_ok);
        let dims = before.dims();
        assert forall|p: Position2d|
            #![trigger sw_has(dims, p)]
            sw_has(dims, p) && sw_depth(dims, dirs, p) > 0 && sw_done(dims, dirs, p, r, s)
                implies sw_way_out(after, dirs, outs, p) by {
            assert(sw_way_out(before, dirs, outs, p));
        }
    }

    /// The open run grows by the cell that has been joined to the next
    /// cell of its row.
    proof fn lemma_sw_run(
        before: &RectGrid<NoMask>,
        after: &RectGrid<NoMask>,
        dirs: (RectDirection, RectDirection),
        r: int,
        k: int,
        s: int,
    )
        requires
            sw_run_ok(before, dirs, r, k, s),
            after.dims() == before.dims(),
            before.links().subset_of(after.links()),
            sw_depth(before.dims(), dirs, Position2d(r as usize, 0)) > 0
                ==> after.links().contains(
                (sw_cell(before.dims(), dirs, r, k), sw_cell(before.dims(), dirs, r, k + 1)),
            ),
        ensures
            sw_run_ok(after, dirs, r, k + 1, s),
    {
        reveal(sw_run_ok);
        let dims = before.dims();
        assert forall|j: int|
            s <= j < k + 1 && sw_depth(dims, dirs, Position2d(r as usize, 0))
                > 0 implies #[trigger] sw_run_step(after, dirs, r, j) by {
            if j < k {
                assert(sw_run_step(before, dirs, r, j));
            }
        }
    }

    /// The state holds on after a cell has been joined to the next cell
    /// of its row (for `linked`), or, as the corner, has been left alone.
    proof fn lemma_run_longer(
        before: &RectGrid<NoMask>,
        after: &RectGrid<NoMask>,
        dirs: (RectDirection, RectDirection),
        outs: Map<Position2d, int>,
        r: int,
        k: int,
        s: int,
        linked: bool,
    )
        requires
            sw_state(before, dirs, outs, r, k, s),
            exists|con_dir: DiagonalDirection| dirs == con_dir.dirs(),
            0 <= r < before.dims().1,
            0 <= k < before.dims().0,
            after.valid(),
            after.dims() == before.dims(),
            after.marks() == before.marks(),
            linked ==> k < before.dims().0 - 1,
            !linked ==> k == before.dims().0 - 1 && sw_depth(
                before.dims(),
                dirs,
                Position2d(r as usize, 0),
            ) == 0,
            after.links() == if linked {
                with_pair(
                    before.links(),
                    sw_cell(before.dims(), dirs, r, k),
                    sw_cell(before.dims(), dirs, r, k + 1),
                )
            } else {
                before.links()
            },
            after.links_n() == before.links_n() + if linked && !before.links().contains(
                (sw_cell(before.dims(), dirs, r, k), sw_cell(before.dims(), dirs, r, k + 1)),
            ) {
                1nat
            } else {
                0nat
            },
        ensures
            sw_state(after, dirs, outs, r, k + 1, s),
    {
        let dims = before.dims();
        let pos = sw_cell(dims, dirs, r, k);
        let next = sw_cell(dims, dirs, r, k + 1);
        let corner = corner_of(dims, dirs);
        if linked {
            Self::lemma_sw_new(before, dirs, r, k, s, k, true);
        }
        Self::lemma_sw_links(before, after, dirs, r, k, s, s, pos, next);
        Self::lemma_sw_border(before, after, dirs, r, k);
        Self::lemma_sw_kept(before, after, dirs, outs, r, s);
        Self::lemma_sw_run(before, after, dirs, r, k, s);
        assert(sw_has(dims, corner));
        assert((corner == pos) == !linked);
        assert(sw_done(dims, dirs, corner, r, k + 1) == (sw_done(dims, dirs, corner, r, k)
            || corner == pos));
    }

    /// The cells of the run that has been closed have their way out.
    proof fn lemma_sw_closed(
        before: &RectGrid<NoMask>,
        after: &RectGrid<NoMask>,
        dirs: (RectDirection, RectDirection),
        outs: Map<Position2d, int>,
        r: int,
        k: int,
        s: int,
        out: int,
    ) -> (closed: Map<Position2d, int>)
        requires
            sw_closed_ok(before, dirs, outs, r, s),
            sw_run_ok(before, dirs, r, k, s),
            before.valid(),
            after.valid(),
            after.dims() == before.dims(),
            before.links().subset_of(after.links()),
            0 <= r < before.dims().1,
            0 <= s <= out <= k < before.dims().0,
            sw_depth(before.dims(), dirs, Position2d(r as usize, 0)) > 0,
            after.links().contains(
                (
                    sw_cell(before.dims(), dirs, r, out),
                    sw_up(dirs, sw_cell(before.dims(), dirs, r, out)),
                ),
            ),
        ensures
            sw_closed_ok(after, dirs, closed, r, k + 1),
    {
        reveal(sw_closed_ok);
        reveal(sw_run_ok);
        let dims = before.dims();
        let in_run = |p: Position2d|
            sw_has(dims, p) && p.0 == r && s <= sw_index(dims, dirs, p) <= k;
        let closed = Map::new(
            |p: Position2d| outs.dom().contains(p) || in_run(p),
            |p: Position2d|
                if in_run(p) {
                    out
                } else {
                    outs[p]
                },
        );
        after.lemma_graph();
        assert forall|p: Position2d|
            #![trigger sw_has(dims, p)]
            sw_has(dims, p) && sw_depth(dims, dirs, p) > 0 && sw_done(dims, dirs, p, r, k + 1)
                implies sw_way_out(after, dirs, closed, p) by {
            let j = sw_index(dims, dirs, p);
            if in_run(p) {
                assert(p == sw_cell(dims, dirs, r, j));
                if j < out {
                    assert(sw_run_step(before, dirs, r, j));
                    assert(in_run(sw_cell(dims, dirs, r, j + 1)));
                } else if j > out {
                    assert(sw_run_step(before, dirs, r, j - 1));
                    assert(in_run(sw_cell(dims, dirs, r, j - 1)));
                }
            } else {
                assert(sw_done(dims, dirs, p, r, s));
                assert(sw_way_out(before, dirs, outs, p));
                if j < outs[p] {
                    let next = sw_cell(dims, dirs, p.0 as int, j + 1);
                    assert(outs.dom().contains(next));
                    assert(!in_run(next));
                } else if j > outs[p] {
                    let last = sw_cell(dims, dirs, p.0 as int, j - 1);
                    assert(outs.dom().contains(last));
                    assert(!in_run(last));
                }
            }
        }
        assert forall|p: Position2d| #[trigger] closed.dom().contains(p) implies sw_has(dims, p)
            && sw_done(dims, dirs, p, r, k + 1) by {
            if !in_run(p) {
                assert(outs.dom().contains(p));
            }
        }
        closed
    }

    /// The state holds on after the run from number `s` to number `k` has
    /// been closed by a passage from its number `out` to the row nearer to
    /// the border.
    proof fn lemma_closed(
        before: &RectGrid<NoMask>,
        after: &RectGrid<NoMask>,
        dirs: (RectDirection, RectDirection),
        outs: Map<Position2d, int>,
        r: int,
        k: int,
        s: int,
        out: int,
    ) -> (closed: Map<Position2d, int>)
        requires
            sw_state(before, dirs, outs, r, k, s),
            exists|con_dir: DiagonalDirection| dirs == con_dir.dirs(),
            0 <= r < before.dims().1,
            0 <= k < before.dims().0,
            s <= out <= k,
            sw_depth(before.dims(), dirs, Position2d(r as usize, 0)) > 0,
            after.valid(),
            after.dims() == before.dims(),
            after.marks() == before.marks(),
            after.links() == with_pair(
                before.links(),
                sw_cell(before.dims(), dirs, r, out),
                sw_up(dirs, sw_cell(before.dims(), dirs, r, out)),
            ),
            after.links_n() == before.links_n() + if !before.links().contains(
                (
                    sw_cell(before.dims(), dirs, r, out),
                    sw_up(dirs, sw_cell(before.dims(), dirs, r, out)),
                ),
            ) {
                1nat
            } else {
                0nat
            },
        ensures
            sw_state(after, dirs, closed, r, k + 1, k + 1),
    {
        let dims = before.dims();
        let from = sw_cell(dims, dirs, r, out);
        let to = sw_up(dirs, from);
        let corner = corner_of(dims, dirs);
        Self::lemma_sw_new(before, dirs, r, k, s, out, false);
        Self::lemma_sw_links(before, after, dirs, r, k, s, k + 1, from, to);
        Self::lemma_sw_border(before, after, dirs, r, k);
        let closed = Self::lemma_sw_closed(before, after, dirs, outs, r, k, s, out);
        assert(sw_run_ok(after, dirs, r, k + 1, k + 1)) by {
            reveal(sw_run_ok);
        }
        assert(sw_has(dims, corner) && sw_depth(dims, dirs, corner) == 0);
        assert(sw_done(dims, dirs, corner, r, k + 1) == sw_done(dims, dirs, corner, r, k));
        closed
    }

    /// The state at the end of a row is the state at the start of the
    /// next.
    proof fn lemma_sw_row(
        grid: &RectGrid<NoMask>,
        dirs: (RectDirection, RectDirection),
        outs: Map<Position2d, int>,
        r: int,
        s: int,
    )
        requires
            sw_state(grid, dirs, outs, r, grid.dims().0 as int, s),
            r < grid.dims().1,
            sw_depth(grid.dims(), dirs, Position2d(r as usize, 0)) > 0 ==> s == grid.dims().0,
        ensures
            sw_state(grid, dirs, outs, r + 1, 0, 0),
    {
        reveal(sw_border_ok);
        reveal(sw_closed_ok);
        reveal(sw_run_ok);
        reveal(sw_links_ok);
        let dims = grid.dims();
        let w = dims.0 as int;
        assert((r + 1) * w == r * w + w) by (nonlinear_arith);
        assert forall|p: Position2d|
            #![trigger sw_has(dims, p)]
            sw_has(dims, p) implies sw_done(dims, dirs, p, r, w) == sw_done(
            dims,
            dirs,
            p,
            r + 1,
            0,
        ) by {}
        assert forall|p: Position2d|
            #![trigger sw_has(dims, p)]
            sw_has(dims, p) && sw_depth(dims, dirs, p) > 0 implies sw_done(dims, dirs, p, r, s)
            == sw_done(dims, dirs, p, r + 1, 0) by {}
        assert forall|a: Position2d, b: Position2d|
            sw_opened(dims, dirs, a, b, r, w, s) == sw_opened(dims, dirs, a, b, r + 1, 0, 0) by {}
        assert forall|a: Position2d, b: Position2d| #[trigger]
            grid.links().contains((a, b)) implies sw_opened(dims, dirs, a, b, r + 1, 0, 0)
            || sw_opened(dims, dirs, b, a, r + 1, 0, 0) by {
            assert(sw_opened(dims, dirs, a, b, r, w, s) || sw_opened(dims, dirs, b, a, r, w, s));
        }
    }

    /// A passage that leads a cell on its way out leads to a cell of lower
    /// rank.
    proof fn lemma_sw_rank(
        grid: &RectGrid<NoMask>,
        con_dir: DiagonalDirection,
        outs: Map<Position2d, int>,
        p: Position2d,
    ) -> (q: Position2d)
        requires
            grid.valid(),
            sw_state(grid, con_dir.dirs(), outs, grid.dims().1 as int, 0, 0),
            sw_has(grid.dims(), p),
            p != corner_of(grid.dims(), con_dir.dirs()),
        ensures
            grid.links().contains((p, q)),
            sw_rank(grid.dims(), con_dir.dirs(), outs, q) < sw_rank(
                grid.dims(),
                con_dir.dirs(),
                outs,
                p,
            ),
    {
        reveal(sw_border_ok);
        reveal(sw_closed_ok);
        let dims = grid.dims();
        let dirs = con_dir.dirs();
        let k = sw_index(dims, dirs, p);
        let w = dims.0 as int;
        assert(sw_done(dims, dirs, p, dims.1 as int, 0));
        if sw_depth(dims, dirs, p) == 0 {
            sw_cell(dims, dirs, p.0 as int, k + 1)
        } else {
            assert(sw_way_out(grid, dirs, outs, p));
            let depth = sw_depth(dims, dirs, p);
            let out = outs[p];
            if k == out {
                let q = sw_up(dirs, p);
                assert(sw_has(dims, q));
                assert(sw_depth(dims, dirs, q) == depth - 1);
                assert(sw_rank(dims, dirs, outs, q) < (depth - 1) * 2 * w + 2 * w) by {
                    if depth - 1 > 0 {
                        assert(sw_done(dims, dirs, q, dims.1 as int, 0));
                        assert(sw_way_out(grid, dirs, outs, q));
                    }
                }
                assert((depth - 1) * 2 * w + 2 * w == depth * 2 * w) by (nonlinear_arith);
                q
            } else if k < out {
                sw_cell(dims, dirs, p.0 as int, k + 1)
            } else {
                sw_cell(dims, dirs, p.0 as int, k - 1)
            }
        }
    }

    /// Once every row has been dealt with, the maze is perfect.
    proof fn lemma_sw_done(
        grid: &RectGrid<NoMask>,
        con_dir: DiagonalDirection,
        outs: Map<Position2d, int>,
    )
        requires
            sw_state(grid, con_dir.dirs(), outs, grid.dims().1 as int, 0, 0),
        ensures
            is_perfect(grid),
    {
        let dims = grid.dims();
        let dirs = con_dir.dirs();
        let corner = corner_of(dims, dirs);
        grid.lemma_graph();
        lemma_rect_cells(dims.0 as nat, dims.1 as nat, grid.marks());
        assert(dims.1 * dims.0 == dims.0 * dims.1) by (nonlinear_arith);
        if dims.0 == 0 || dims.1 == 0 {
            assert(grid.cells() =~= Set::<Position2d>::empty());
            assert(dims.1 * dims.0 == 0) by (nonlinear_arith)
                requires
                    dims.0 == 0 || dims.1 == 0,
            ;
        } else {
            assert(grid.cells().contains(corner));
            assert(sw_has(dims, corner));
            assert(sw_done(dims, dirs, corner, dims.1 as int, 0));
            let rank = |p: Position2d| sw_rank(dims, dirs, outs, p);
            assert forall|p: Position2d|
                #![trigger grid.cells().contains(p)]
                grid.cells().contains(p) && p != corner implies exists|q: Position2d| #[trigger]
                grid.links().contains((p, q)) && rank(q) < rank(p) by {
                assert(sw_has(dims, p));
                let q = Self::lemma_sw_rank(grid, con_dir, outs, p);
                assert(grid.links().contains((p, q)) && rank(q) < rank(p));
            }
            assert(flows_down(grid, corner, rank));
            lemma_flow_perfect(grid, corner, rank);
        }
    }
}

} // verus!
