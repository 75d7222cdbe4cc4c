//! Positions, the grid abstraction, and the row/column grid that three of the
//! topologies share.

use crate::maze::rect::{Error, RectMask, RectPosition};
use crate::pos_set::PosSet;
use crate::random::RandomSource;
use vstd::arithmetic::div_mod::{lemma_fundamental_div_mod, lemma_fundamental_div_mod_converse};
use vstd::prelude::*;

pub mod circ;
pub mod hexa;
pub mod rect;
pub mod tri;

verus! {

/// A cell's coordinates. What the two numbers mean depends on the topology:
/// row and column, or ring and cell within the ring.
#[derive(Debug, Clone, Copy, PartialEq, Eq, PartialOrd, Ord, Hash, Structural)]
pub struct Position2d(pub usize, pub usize);

impl Position2d {
    /// Row-major order: by the first coordinate, then by the second.
    pub open spec fn spec_before(self, other: Position2d) -> bool {
        self.0 < other.0 || (self.0 == other.0 && self.1 < other.1)
    }

    /// Whether `self` comes strictly before `other` in row-major order.
    #[verifier::when_used_as_spec(spec_before)]
    pub fn before(self, other: Position2d) -> (b: bool)
        ensures
            b == self.spec_before(other),
    {
        self.0 < other.0 || (self.0 == other.0 && self.1 < other.1)
    }
}

/// Marks a grid type as built with or without a mask.
pub trait MaskType {
    /// Whether grids of this kind have a mask.
    spec fn has_mask() -> bool;
}

/// Marks a grid in which every position within the bounds is a cell.
#[derive(Debug, Clone, Copy, PartialEq, Eq, PartialOrd, Ord, Hash, Default)]
pub struct NoMask;

impl MaskType for NoMask {
    open spec fn has_mask() -> bool {
        false
    }
}

/// Marks a grid whose cells are picked by a mask.
#[derive(Debug, Clone, Copy, PartialEq, Eq, PartialOrd, Ord, Hash, Default)]
pub struct WithMask;

impl MaskType for WithMask {
    open spec fn has_mask() -> bool {
        true
    }
}

/// What every topology offers to the generators: its cells, which cells are
/// neighbours, and a way to open a passage between two neighbours.
///
/// In contracts a grid is a graph. `cells` are its nodes, `neighbors_of`
/// lists the nodes next to a node, `links` holds each passage as a pair in
/// both directions, and `links_n` counts the passages.
pub trait Grid2d: Sized {
    /// What fixes a grid's cells and their neighbourhood: its size, and
    /// what else the topology needs.
    type Frame;

    /// The grid's own consistency.
    spec fn valid(&self) -> bool;

    /// What fixes the grid's cells and their neighbourhood. No passage
    /// opened changes it.
    spec fn frame(&self) -> Self::Frame;

    /// The positions that are cells.
    spec fn cells(&self) -> Set<Position2d>;

    /// The cells next to `pos`, in the order in which `append_neighbors` lists
    /// them; empty where `pos` is no cell.
    spec fn neighbors_of(&self, pos: Position2d) -> Seq<Position2d>;

    /// The passages, each as a pair of positions in both directions.
    spec fn links(&self) -> Set<(Position2d, Position2d)>;

    /// The number of passages.
    spec fn links_n(&self) -> nat;

    /// A valid grid has finitely many cells; only cells are neighbours, no
    /// cell of itself, and always mutually; passages run between neighbours
    /// only, in both directions; and `links_n` counts them: `links` holds
    /// two ordered pairs for each.
    proof fn lemma_graph(&self)
        requires
            self.valid(),
        ensures
            self.cells().finite(),
            self.links().finite(),
            self.links().len() == 2 * self.links_n(),
            forall|a: Position2d, b: Position2d| #[trigger]
                self.neighbors_of(a).contains(b) ==> self.cells().contains(a)
                    && self.cells().contains(b) && a != b && self.neighbors_of(b).contains(a),
            forall|a: Position2d, b: Position2d| #[trigger]
                self.links().contains((a, b)) ==> self.neighbors_of(a).contains(b)
                    && self.links().contains((b, a)),
    ;

    /// Grids with one frame have the same cells and the same neighbourhood.
    proof fn lemma_frame(&self, other: &Self)
        requires
            self.frame() == other.frame(),
        ensures
            self.cells() == other.cells(),
            forall|p: Position2d| #[trigger] self.neighbors_of(p) == other.neighbors_of(p),
    ;

    /// The number of cells.
    fn cells_n(&self) -> (n: usize)
        requires
            self.valid(),
        ensures
            n == self.cells().len(),
    ;

    /// One of the cells, or nothing where there is none.
    fn random_cell_pos(&self, rng: &mut RandomSource) -> (picked: Option<Position2d>)
        requires
            self.valid(),
        ensures
            picked is None <==> self.cells() == Set::<Position2d>::empty(),
            picked is Some ==> self.cells().contains(picked->0),
    ;

    /// All cells.
    fn all_cells_pos_set(&self) -> (all: PosSet)
        requires
            self.valid(),
        ensures
            all.wf(),
            all@ == self.cells(),
    ;

    /// Appends the cells next to `pos` to `neighbors`.
    fn append_neighbors(&self, pos: &Position2d, neighbors: &mut Vec<Position2d>)
        requires
            self.valid(),
        ensures
            final(neighbors)@ == old(neighbors)@ + self.neighbors_of(*pos),
    ;

    /// Opens a passage between `from` and `to` where they are neighbours, and
    /// says whether they are. The cells and their neighbourhood stay as they
    /// were, and so does every other passage.
    fn connect_to(&mut self, from: &Position2d, to: &Position2d) -> (connected: bool)
        requires
            old(self).valid(),
        ensures
            final(self).valid(),
            final(self).frame() == old(self).frame(),
            final(self).cells() == old(self).cells(),
            forall|p: Position2d|
                #![trigger final(self).neighbors_of(p)]
                #![trigger old(self).neighbors_of(p)]
                final(self).neighbors_of(p) == old(self).neighbors_of(p),
            connected == old(self).neighbors_of(*from).contains(*to),
            connected ==> final(self).links() == old(self).links().insert((*from, *to)).insert(
                (*to, *from),
            ),
            !connected ==> final(self).links() == old(self).links(),
            final(self).links_n() == old(self).links_n() + if connected && !old(
                self,
            ).links().contains((*from, *to)) {
                1nat
            } else {
                0nat
            },
    ;
}

/// A grid whose cells lie in layers, one after the other: the rows of a
/// rectangle, or the rings of a disc. A cell's second coordinate is its index
/// within its layer.
pub trait LayerGrid: Grid2d {
    /// The number of layers.
    spec fn layer_count(&self) -> nat;

    /// The number of cells in a layer.
    spec fn layer_size(&self, layer: nat) -> nat;

    /// The neighbours of `pos` in the layer before its own, in the order in
    /// which `append_neighbors_upper_layer` lists them.
    spec fn above(&self, pos: Position2d) -> Seq<Position2d>;

    /// The neighbours of `pos` in the layer after its own, in the order in
    /// which `append_neighbors_lower_layer` lists them.
    spec fn below(&self, pos: Position2d) -> Seq<Position2d>;

    /// The cells are the indices below each layer's size. A cell is next to
    /// the one before it in its layer. What lies below a cell is next to it
    /// and in the following layer; every cell but those of the last layer has
    /// a cell below it; and no cell lies below two cells.
    proof fn lemma_layers(&self)
        requires
            self.valid(),
        ensures
            forall|p: Position2d| #[trigger]
                self.cells().contains(p) <==> p.0 < self.layer_count() && p.1 < self.layer_size(
                    p.0 as nat,
                ),
            forall|p: Position2d|
                self.cells().contains(p) && p.1 > 0 ==> #[trigger] self.neighbors_of(p).contains(
                    Position2d(p.0, (p.1 - 1) as usize),
                ),
            forall|p: Position2d, q: Position2d| #[trigger]
                self.below(p).contains(q) ==> self.neighbors_of(p).contains(q) && q.0 == p.0 + 1,
            forall|p: Position2d|
                self.cells().contains(p) && p.0 + 1 < self.layer_count() ==> (
                #[trigger] self.below(p)).len() > 0,
            forall|p: Position2d, r: Position2d, q: Position2d|
                #[trigger] self.below(p).contains(q) && #[trigger] self.below(r).contains(q) ==> p
                    == r,
            forall|p: Position2d, q: Position2d| #[trigger]
                self.above(p).contains(q) <==> self.below(q).contains(p),
    ;

    /// Grids with one frame have the same layers.
    proof fn lemma_layer_frame(&self, other: &Self)
        requires
            self.frame() == other.frame(),
        ensures
            self.layer_count() == other.layer_count(),
            forall|layer: nat| #[trigger] self.layer_size(layer) == other.layer_size(layer),
            forall|p: Position2d| #[trigger] self.below(p) == other.below(p),
            forall|p: Position2d| #[trigger] self.above(p) == other.above(p),
    ;

    /// The number of layers.
    fn layers_n(&self) -> (n: usize)
        requires
            self.valid(),
        ensures
            n == self.layer_count(),
    ;

    /// The number of cells in a layer.
    fn cells_n_at(&self, layer_ind: usize) -> (n: usize)
        requires
            self.valid(),
        ensures
            n == self.layer_size(layer_ind as nat),
    ;

    /// Appends the neighbours of `pos` in the layer before its own.
    fn append_neighbors_upper_layer(&self, pos: &Position2d, neighbors: &mut Vec<Position2d>)
        requires
            self.valid(),
        ensures
            final(neighbors)@ == old(neighbors)@ + self.above(*pos),
    ;

    /// Appends the neighbours of `pos` in the layer after its own.
    fn append_neighbors_lower_layer(&self, pos: &Position2d, neighbors: &mut Vec<Position2d>)
        requires
            self.valid(),
        ensures
            final(neighbors)@ == old(neighbors)@ + self.below(*pos),
    ;

    /// The position before `pos` in its layer, if `pos` is not the first.
    fn last_neighbor_pos(&self, pos: &Position2d) -> (last: Option<Position2d>)
        ensures
            last == if pos.1 > 0 {
                Some(Position2d(pos.0, (pos.1 - 1) as usize))
            } else {
                None
            },
    {
        if pos.1 > 0 {
            Some(Position2d(pos.0, pos.1 - 1))
        } else {
            None
        }
    }

    /// The position after `pos` in its layer, if `pos` is not the last.
    fn next_neighbor_pos(&self, pos: &Position2d) -> (next: Option<Position2d>)
        requires
            self.valid(),
        ensures
            next == if pos.1 + 1 < self.layer_size(pos.0 as nat) {
                Some(Position2d(pos.0, (pos.1 + 1) as usize))
            } else {
                None
            },
    {
        let size = self.cells_n_at(pos.0);
        if pos.1 < usize::MAX && pos.1 + 1 < size {
            Some(Position2d(pos.0, pos.1 + 1))
        } else {
            None
        }
    }
}

/// Two grids have the same frame, and with it the same cells and the same
/// neighbourhood.
pub open spec fn same_shape<G: Grid2d>(a: &G, b: &G) -> bool {
    &&& a.frame() == b.frame()
    &&& a.cells() == b.cells()
    &&& forall|p: Position2d|
        #![trigger a.neighbors_of(p)]
        #![trigger b.neighbors_of(p)]
        a.neighbors_of(p) == b.neighbors_of(p)
}

/// The neighbourhood of a grid as a relation.
pub open spec fn adjacency<G: Grid2d>(grid: &G) -> Set<(Position2d, Position2d)> {
    Set::new(|pair: (Position2d, Position2d)| grid.neighbors_of(pair.0).contains(pair.1))
}

/// Every cell can be reached from every other by going from neighbour to
/// neighbour.
pub open spec fn is_connected<G: Grid2d>(grid: &G) -> bool {
    crate::graph::all_joined(grid.cells(), adjacency(grid))
}

/// Whether the grids with the given frame are connected. They all are or
/// none is, since the frame fixes cells and neighbourhood.
pub open spec fn frame_is_connected<G: Grid2d>(frame: G::Frame) -> bool {
    forall|grid: G| #[trigger] grid.frame() == frame ==> is_connected(&grid)
}

/// A grid is connected exactly if the grids with its frame are.
pub proof fn lemma_frame_connected<G: Grid2d>(grid: &G)
    ensures
        frame_is_connected::<G>(grid.frame()) == is_connected(grid),
{
    if is_connected(grid) {
        assert forall|other: G| #[trigger] other.frame() == grid.frame() implies is_connected(
            &other,
        ) by {
            grid.lemma_frame(&other);
            assert(adjacency(&other) =~= adjacency(grid));
        }
    }
}

/// No passage has been opened.
pub open spec fn is_blank<G: Grid2d>(grid: &G) -> bool {
    grid.links() == Set::<(Position2d, Position2d)>::empty() && grid.links_n() == 0
}

/// The passages make a perfect maze: every cell can be reached from every
/// other through passages, and there is one passage fewer than cells.
pub open spec fn is_perfect<G: Grid2d>(grid: &G) -> bool {
    crate::graph::is_spanning_tree(grid.cells(), grid.links(), grid.links_n())
}

/// No passage runs between positions that are no cells, nor between
/// cells that are no neighbours.
pub proof fn lemma_passages_join_neighbors<G: Grid2d>(grid: &G, a: Position2d, b: Position2d)
    requires
        grid.valid(),
        grid.links().contains((a, b)),
    ensures
        grid.cells().contains(a),
        grid.cells().contains(b),
        a != b,
        grid.neighbors_of(a).contains(b),
        grid.neighbors_of(b).contains(a),
{
    grid.lemma_graph();
}

/// Grids of the same shape have the same neighbourhood relation.
pub proof fn lemma_same_shape_adjacency<G: Grid2d>(a: &G, b: &G)
    requires
        same_shape(a, b),
    ensures
        adjacency(a) == adjacency(b),
{
    assert(adjacency(a) =~= adjacency(b));
}

/// The place of `(row, col)` in row-major order lies within the grid, and
/// gives row and column back.
pub proof fn lemma_flat_index(row: int, col: int, width: int, height: int)
    requires
        0 <= row < height,
        0 <= col < width,
    ensures
        0 <= row * width + col < height * width,
        height * width == width * height,
        (row * width + col) / width == row,
        (row * width + col) % width == col,
{
    assert(0 <= row * width + col < height * width && height * width == width * height)
        by (nonlinear_arith)
        requires
            0 <= row < height,
            0 <= col < width,
    ;
    lemma_fundamental_div_mod_converse(row * width + col, width, row, col);
}

/// Every place below `width * height` is the place of one row and column.
pub proof fn lemma_flat_position(index: int, width: int, height: int)
    requires
        0 <= index < width * height,
        0 <= width,
        0 <= height,
    ensures
        0 <= index / width < height,
        0 <= index % width < width,
        (index / width) * width + index % width == index,
{
    assert(width > 0) by (nonlinear_arith)
        requires
            0 <= index < width * height,
            0 <= width,
            0 <= height,
    ;
    lemma_fundamental_div_mod(index, width);
    let q = index / width;
    let r = index % width;
    assert(index == width * q + r);
    assert(0 <= q < height) by (nonlinear_arith)
        requires
            index == width * q + r,
            0 <= r < width,
            0 <= index < width * height,
    ;
    assert(q * width == width * q) by (nonlinear_arith);
}

/// Whether `pos` lies within the bounds and, where there is a mask, is
/// switched on in it. The mask holds one flag per position, row by row.
pub open spec fn rect_has(width: nat, height: nat, mask: Option<Seq<bool>>, pos: Position2d) -> bool {
    &&& pos.0 < height
    &&& pos.1 < width
    &&& match mask {
        Some(flags) => flags[pos.0 * width + pos.1],
        None => true,
    }
}

/// The position at a place in row-major order.
pub open spec fn rect_pos_at(width: nat, index: int) -> Position2d {
    Position2d((index / width as int) as usize, (index % width as int) as usize)
}

/// The cells among the first `k` places in row-major order.
pub open spec fn rect_cells_below(
    width: nat,
    height: nat,
    mask: Option<Seq<bool>>,
    k: nat,
) -> Set<Position2d> {
    Set::new(|pos: Position2d| rect_has(width, height, mask, pos) && pos.0 * width + pos.1 < k)
}

/// All cells.
pub open spec fn rect_cells(width: nat, height: nat, mask: Option<Seq<bool>>) -> Set<Position2d> {
    Set::new(|pos: Position2d| rect_has(width, height, mask, pos))
}

/// How many of the first `k` places in row-major order are cells.
pub open spec fn rect_count(width: nat, height: nat, mask: Option<Seq<bool>>, k: nat) -> nat
    decreases k,
{
    if k == 0 {
        0
    } else {
        rect_count(width, height, mask, (k - 1) as nat) + if rect_has(
            width,
            height,
            mask,
            rect_pos_at(width, k - 1),
        ) {
            1nat
        } else {
            0nat
        }
    }
}

/// The cells among the first `k` places are finitely many, and `rect_count`
/// counts them.
pub proof fn lemma_rect_cells_below(width: nat, height: nat, mask: Option<Seq<bool>>, k: nat)
    requires
        k <= width * height,
        width * height <= usize::MAX,
    ensures
        rect_cells_below(width, height, mask, k).finite(),
        rect_cells_below(width, height, mask, k).len() == rect_count(width, height, mask, k),
        rect_count(width, height, mask, k) <= k,
        mask is None ==> rect_count(width, height, mask, k) == k,
    decreases k,
{
    if k == 0 {
        assert(rect_cells_below(width, height, mask, k) =~= Set::<Position2d>::empty());
    } else {
        let before = (k - 1) as nat;
        lemma_rect_cells_below(width, height, mask, before);
        lemma_flat_position(before as int, width as int, height as int);
        let at = rect_pos_at(width, before as int);
        assert(at.0 * width + at.1 == before);
        assert forall|pos: Position2d|
            rect_has(width, height, mask, pos) && pos.0 * width + pos.1 == before implies pos
            == at by {
            lemma_flat_index(pos.0 as int, pos.1 as int, width as int, height as int);
        }
        if rect_has(width, height, mask, at) {
            assert(rect_cells_below(width, height, mask, k) =~= rect_cells_below(
                width,
                height,
                mask,
                before,
            ).insert(at));
        } else {
            assert(rect_cells_below(width, height, mask, k) =~= rect_cells_below(
                width,
                height,
                mask,
                before,
            ));
        }
    }
}

/// All cells are finitely many, and `rect_count` over every place counts
/// them.
pub proof fn lemma_rect_cells(width: nat, height: nat, mask: Option<Seq<bool>>)
    requires
        width * height <= usize::MAX,
    ensures
        rect_cells(width, height, mask).finite(),
        rect_cells(width, height, mask).len() == rect_count(width, height, mask, width * height),
        mask is None ==> rect_cells(width, height, mask).len() == width * height,
{
    lemma_rect_cells_below(width, height, mask, width * height);
    assert(rect_cells(width, height, mask) =~= rect_cells_below(
        width,
        height,
        mask,
        width * height,
    )) by {
        assert forall|pos: Position2d| rect_has(width, height, mask, pos) implies pos.0 * width
            + pos.1 < width * height by {
            lemma_flat_index(pos.0 as int, pos.1 as int, width as int, height as int);
            assert(height * width == width * height) by (nonlinear_arith);
        }
    }
}

/// The sequence that holds the position, if there is one.
pub open spec fn seq_of(pos: Option<Position2d>) -> Seq<Position2d> {
    match pos {
        Some(p) => seq![p],
        None => Seq::empty(),
    }
}

/// What a sequence holds once an optional position has been appended.
pub proof fn lemma_seq_of(list: Seq<Position2d>, pos: Option<Position2d>, x: Position2d)
    ensures
        (list + seq_of(pos)).contains(x) <==> list.contains(x) || pos == Some(x),
        seq_of(pos).contains(x) <==> pos == Some(x),
{
    let joint = list + seq_of(pos);
    if list.contains(x) {
        let i = choose|i: int| 0 <= i < list.len() && list[i] == x;
        assert(joint[i] == x);
    }
    if pos == Some(x) {
        assert(seq_of(pos)[0] == x);
        assert(joint[list.len() as int] == x);
    }
    if joint.contains(x) {
        let i = choose|i: int| 0 <= i < joint.len() && joint[i] == x;
        if i < list.len() {
            assert(list[i] == x);
        } else {
            assert(seq_of(pos)[i - list.len()] == x);
        }
    }
    if seq_of(pos).contains(x) {
        let i = choose|i: int| 0 <= i < seq_of(pos).len() && seq_of(pos)[i] == x;
        assert(i == 0);
    }
}

/// What two sequences put end to end hold.
pub proof fn lemma_concat_contains<T>(first: Seq<T>, second: Seq<T>, x: T)
    ensures
        (first + second).contains(x) <==> first.contains(x) || second.contains(x),
{
    let joint = first + second;
    if first.contains(x) {
        let i = choose|i: int| 0 <= i < first.len() && first[i] == x;
        assert(joint[i] == x);
    }
    if second.contains(x) {
        let i = choose|i: int| 0 <= i < second.len() && second[i] == x;
        assert(joint[first.len() + i] == x);
    }
    if joint.contains(x) {
        let i = choose|i: int| 0 <= i < joint.len() && joint[i] == x;
        if i < first.len() {
            assert(first[i] == x);
        } else {
            assert(second[i - first.len()] == x);
        }
    }
}

/// Whether two positions lie side by side in a row or in a column.
pub open spec fn rect_next(a: Position2d, b: Position2d) -> bool {
    (a.0 == b.0 && (a.1 + 1 == b.1 || b.1 + 1 == a.1)) || (a.1 == b.1 && (a.0 + 1 == b.0 || b.0
        + 1 == a.0))
}

/// The pairs of cells that lie side by side in a row or in a column.
pub open spec fn rect_adjacency(width: nat, height: nat, mask: Option<Seq<bool>>) -> Set<
    (Position2d, Position2d),
> {
    Set::new(
        |pair: (Position2d, Position2d)|
            rect_has(width, height, mask, pair.0) && rect_has(width, height, mask, pair.1)
                && rect_next(pair.0, pair.1),
    )
}

/// Every marked position can be reached from every other by steps along
/// rows and columns over marked positions.
pub open spec fn mask_connected(width: nat, height: nat, flags: Seq<bool>) -> bool {
    crate::graph::all_joined(
        rect_cells(width, height, Some(flags)),
        rect_adjacency(width, height, Some(flags)),
    )
}

/// In a rectangle without mask, every cell can be reached from the first
/// by steps along rows and columns.
pub proof fn lemma_rect_reach(width: nat, height: nat, p: Position2d)
    requires
        rect_has(width, height, None, p),
    ensures
        crate::graph::joined(rect_adjacency(width, height, None), Position2d(0, 0), p),
    decreases p.0 + p.1,
{
    let adj = rect_adjacency(width, height, None);
    let origin = Position2d(0, 0);
    if p.1 > 0 {
        let q = Position2d(p.0, (p.1 - 1) as usize);
        lemma_rect_reach(width, height, q);
        crate::graph::lemma_joined_step(adj, q, p);
        crate::graph::lemma_joined_trans(adj, origin, q, p);
    } else if p.0 > 0 {
        let q = Position2d((p.0 - 1) as usize, p.1);
        lemma_rect_reach(width, height, q);
        crate::graph::lemma_joined_step(adj, q, p);
        crate::graph::lemma_joined_trans(adj, origin, q, p);
    } else {
        crate::graph::lemma_joined_self(adj, p);
    }
}

/// A grid whose neighbourhood holds every pair of cells side by side in a
/// row or column, and that has no mask, is connected.
pub proof fn lemma_rect_grid_connected<G: Grid2d>(grid: &G, width: nat, height: nat)
    requires
        grid.valid(),
        grid.cells() == rect_cells(width, height, None),
        rect_adjacency(width, height, None).subset_of(adjacency(grid)),
    ensures
        is_connected(grid),
{
    grid.lemma_graph();
    let adj = adjacency(grid);
    assert(crate::graph::symmetric(adj));
    assert forall|p: Position2d| grid.cells().contains(p) implies #[trigger] crate::graph::joined(
        adj,
        Position2d(0, 0),
        p,
    ) by {
        lemma_rect_reach(width, height, p);
        crate::graph::lemma_joined_grows(
            rect_adjacency(width, height, None),
            adj,
            Position2d(0, 0),
            p,
        );
    }
    crate::graph::lemma_all_joined_from(grid.cells(), adj, Position2d(0, 0));
}

/// A cell type of the row/column grid: what a cell is before any passage is
/// opened, and how many passages it records.
pub trait DefaultInRectGrid: Sized {
    /// The cell that a new grid holds at `pos`.
    spec fn blank_at(pos: Position2d) -> Self;

    /// The number of passages that the cell records.
    spec fn passages(&self) -> nat;

    /// A new cell records no passage.
    proof fn lemma_blank(pos: Position2d)
        ensures
            Self::blank_at(pos).passages() == 0,
    ;

    /// The cell that a new grid holds at `pos`.
    fn default_at(pos: &Position2d) -> (cell: Self)
        ensures
            cell == Self::blank_at(*pos),
    ;
}

/// The passages recorded by the first `k` cells.
pub open spec fn passages_below<C: DefaultInRectGrid>(cells: Seq<C>, k: nat) -> nat
    decreases k,
{
    if k == 0 {
        0
    } else {
        passages_below(cells, (k - 1) as nat) + cells[k - 1].passages()
    }
}

/// Replacing one cell changes the count by the difference between the two.
pub proof fn lemma_passages_update<C: DefaultInRectGrid>(cells: Seq<C>, i: int, cell: C, k: nat)
    requires
        0 <= i < cells.len(),
        k <= cells.len(),
    ensures
        passages_below(cells.update(i, cell), k) + (if i < k {
            cells[i].passages()
        } else {
            0
        }) == passages_below(cells, k) + (if i < k {
            cell.passages()
        } else {
            0
        }),
    decreases k,
{
    if k > 0 {
        lemma_passages_update(cells, i, cell, (k - 1) as nat);
    }
}

/// Cells without passages count for nothing.
pub proof fn lemma_passages_none<C: DefaultInRectGrid>(cells: Seq<C>, k: nat)
    requires
        k <= cells.len(),
        forall|i: int| 0 <= i < k ==> (#[trigger] cells[i]).passages() == 0,
    ensures
        passages_below(cells, k) == 0,
    decreases k,
{
    if k > 0 {
        lemma_passages_none(cells, (k - 1) as nat);
    }
}

/// A grid of `height` rows and `width` columns of cells of one type, with an
/// optional mask that says which positions are cells.
#[derive(Debug)]
pub struct GeneralRectGrid<C: DefaultInRectGrid> {
    pub(crate) width: usize,
    pub(crate) height: usize,
    pub(crate) cells: Vec<C>,
    pub(crate) mask: Option<RectMask>,
}

impl<C: DefaultInRectGrid> GeneralRectGrid<C> {
    /// There is one cell record per position, and the mask, if any, has the
    /// grid's size.
    pub open(crate) spec fn wf(&self) -> bool {
        &&& self.cells@.len() == self.width * self.height
        &&& self.width * self.height <= usize::MAX
        &&& match self.mask {
            Some(mask) => mask.wf() && mask.dims() == (self.width, self.height),
            None => true,
        }
    }

    /// Width and height.
    pub open(crate) spec fn dims(&self) -> (usize, usize) {
        (self.width, self.height)
    }

    /// The mask's flags, if there is a mask.
    pub open(crate) spec fn marks(&self) -> Option<Seq<bool>> {
        match self.mask {
            Some(mask) => Some(mask.marks()),
            None => None,
        }
    }

    /// Whether `pos` is a cell: within the bounds and not masked out.
    pub open(crate) spec fn has(&self, pos: Position2d) -> bool {
        rect_has(self.width as nat, self.height as nat, self.marks(), pos)
    }

    /// The positions that are cells.
    pub open(crate) spec fn cell_set(&self) -> Set<Position2d> {
        rect_cells(self.width as nat, self.height as nat, self.marks())
    }

    /// The record of the cell at `pos`.
    pub open(crate) spec fn at(&self, pos: Position2d) -> C {
        self.cells@[pos.0 * self.width + pos.1]
    }

    /// The number of passages that the cell records hold.
    pub open(crate) spec fn passages(&self) -> nat {
        passages_below(self.cells@, self.cells@.len())
    }

    /// Every cell is as a new grid holds it.
    pub open(crate) spec fn is_fresh(&self) -> bool {
        forall|i: int|
            0 <= i < self.cells@.len() ==> #[trigger] self.cells@[i] == C::blank_at(
                rect_pos_at(self.width as nat, i),
            )
    }

    /// A fresh grid records no passage.
    pub proof fn lemma_fresh(&self)
        requires
            self.is_fresh(),
        ensures
            self.passages() == 0,
    {
        assert forall|i: int| 0 <= i < self.cells@.len() implies (#[trigger] self.cells@[i]).passages()
            == 0 by {
            C::lemma_blank(rect_pos_at(self.width as nat, i));
        }
        lemma_passages_none(self.cells@, self.cells@.len());
    }

    /// A grid without mask in which every position within the bounds is a
    /// fresh cell.
    pub fn new(width: usize, height: usize) -> (grid: Self)
        requires
            width * height <= usize::MAX,
        ensures
            grid.wf(),
            grid.dims() == (width, height),
            grid.marks() is None,
            grid.is_fresh(),
    {
        let mut cells: Vec<C> = Vec::new();
        let mut r: usize = 0;
        while r < height
            invariant
                r <= height,
                width * height <= usize::MAX,
                cells@.len() == r * width,
                forall|i: int|
                    0 <= i < cells@.len() ==> #[trigger] cells@[i] == C::blank_at(
                        rect_pos_at(width as nat, i),
                    ),
            decreases height - r,
        {
            let mut c: usize = 0;
            while c < width
                invariant
                    r < height,
                    c <= width,
                    width * height <= usize::MAX,
                    cells@.len() == r * width + c,
                    forall|i: int|
                        0 <= i < cells@.len() ==> #[trigger] cells@[i] == C::blank_at(
                            rect_pos_at(width as nat, i),
                        ),
                decreases width - c,
            {
                proof {
                    lemma_flat_index(r as int, c as int, width as int, height as int);
                }
                cells.push(C::default_at(&Position2d(r, c)));
                c += 1;
            }
            assert((r + 1) * width == r * width + width) by (nonlinear_arith);
            r += 1;
        }
        assert(cells@.len() == width * height) by (nonlinear_arith)
            requires
                cells@.len() == r * width,
                r == height,
        ;
        GeneralRectGrid { width, height, cells, mask: None }
    }

    /// A grid of the mask's size whose cells are the positions that the mask
    /// marks, each of them fresh. Whether the cells hang together is not
    /// looked at here: `try_with_mask` does that.
    pub fn with_mask(mask: &RectMask) -> (grid: Self)
        requires
            mask.wf(),
        ensures
            grid.wf(),
            grid.dims() == mask.dims(),
            grid.marks() == Some(mask.marks()),
            grid.is_fresh(),
    {
        let (width, height) = mask.size();
        let plain = Self::new(width, height);
        GeneralRectGrid {
            width: plain.width,
            height: plain.height,
            cells: plain.cells,
            mask: Some(mask.clone()),
        }
    }

    /// A grid of the mask's size whose cells are the positions that the mask
    /// marks, each of them fresh; refused where some marked position cannot
    /// be reached from the others along rows and columns.
    pub fn try_with_mask(mask: &RectMask) -> (made: Result<Self, Error>)
        requires
            mask.wf(),
        ensures
            made is Ok <==> mask.connected(),
            match made {
                Ok(grid) => {
                    &&& grid.wf()
                    &&& grid.dims() == mask.dims()
                    &&& grid.marks() == Some(mask.marks())
                    &&& grid.is_fresh()
                },
                Err(err) => err == Error::IsolatedAreaInRectMask,
            },
    {
        match mask.check_isolation() {
            Ok(()) => Ok(Self::with_mask(mask)),
            Err(err) => Err(err),
        }
    }

    /// Width and height.
    pub fn size(&self) -> (dims: (usize, usize))
        ensures
            dims == self.dims(),
    {
        (self.width, self.height)
    }

    /// The number of cells.
    pub fn cells_n(&self) -> (n: usize)
        requires
            self.wf(),
        ensures
            n == self.cell_set().len(),
            self.cell_set().finite(),
    {
        proof {
            lemma_rect_cells(self.width as nat, self.height as nat, self.marks());
        }
        if let Some(mask) = self.mask.as_ref() {
            mask.cells_n()
        } else {
            self.cells.len()
        }
    }

    /// One of the cells, or nothing where there is none.
    pub(crate) fn random_cell_pos(&self, rng: &mut RandomSource) -> (picked: Option<Position2d>)
        requires
            self.wf(),
        ensures
            picked is None <==> self.cell_set() == Set::<Position2d>::empty(),
            picked is Some ==> self.has(picked->0),
    {
        proof {
            lemma_rect_cells(self.width as nat, self.height as nat, self.marks());
        }
        if let Some(mask) = self.mask.as_ref() {
            let marked = mask.cell_pos_iter();
            match rng.choose_index(marked.len()) {
                Some(i) => {
                    let pos = marked[i];
                    assert(mask.has(pos));
                    assert(self.cell_set().contains(pos.pos()));
                    Some(Position2d(pos.row, pos.col))
                },
                None => {
                    proof {
                        self.cell_set().lemma_len0_is_empty();
                    }
                    None
                },
            }
        } else if self.height == 0 || self.width == 0 {
            assert(self.cell_set() =~= Set::<Position2d>::empty());
            None
        } else {
            let row = rng.below(self.height);
            let col = rng.below(self.width);
            assert(self.cell_set().contains(Position2d(row, col)));
            Some(Position2d(row, col))
        }
    }

    /// All cells, row by row.
    pub(crate) fn all_cells_pos_set(&self) -> (all: PosSet)
        requires
            self.wf(),
        ensures
            all.wf(),
            all@ == self.cell_set(),
    {
        let mut all = PosSet::new();
        let ghost width = self.width as nat;
        let ghost height = self.height as nat;
        let ghost marks = self.marks();
        let total = self.cells.len();
        let mut ind: usize = 0;
        while ind < total
            invariant
                self.wf(),
                width == self.width,
                height == self.height,
                marks == self.marks(),
                total == width * height,
                ind <= total,
                all.wf(),
                all@ == rect_cells_below(width, height, marks, ind as nat),
            decreases total - ind,
        {
            proof {
                lemma_flat_position(ind as int, width as int, height as int);
            }
            let pos = Position2d(ind / self.width, ind % self.width);
            let ghost next = rect_cells_below(width, height, marks, (ind + 1) as nat);
            if self.is_cell(&pos) {
                all.insert(pos);
                assert(all@ =~= next) by {
                    assert forall|other: Position2d| next.contains(other) implies all@.contains(
                        other,
                    ) by {
                        lemma_flat_index(
                            other.0 as int,
                            other.1 as int,
                            width as int,
                            height as int,
                        );
                    }
                }
            } else {
                assert(all@ =~= next) by {
                    assert forall|other: Position2d| next.contains(other) implies all@.contains(
                        other,
                    ) by {
                        lemma_flat_index(
                            other.0 as int,
                            other.1 as int,
                            width as int,
                            height as int,
                        );
                    }
                }
            }
            ind += 1;
        }
        proof {
            assert(all@ =~= self.cell_set()) by {
                assert forall|other: Position2d| self.cell_set().contains(other) implies all@.contains(
                    other,
                ) by {
                    lemma_flat_index(
                        other.0 as int,
                        other.1 as int,
                        width as int,
                        height as int,
                    );
                }
            }
        }
        all
    }

    /// Whether `pos` is a cell.
    pub fn is_cell(&self, pos: &Position2d) -> (found: bool)
        requires
            self.wf(),
        ensures
            found == self.has(*pos),
    {
        if let Some(mask) = self.mask.as_ref() {
            mask.is_cell(&RectPosition::new(pos.0, pos.1))
        } else {
            self.pos_to_ind(pos).is_some()
        }
    }

    /// The record of the cell at `pos`, if it is a cell.
    pub(crate) fn cell(&self, pos: &Position2d) -> (found: Option<&C>)
        requires
            self.wf(),
        ensures
            found is Some <==> self.has(*pos),
            found is Some ==> *found->0 == self.at(*pos),
    {
        if self.is_cell(pos) {
            match self.pos_to_ind(pos) {
                Some(ind) => Some(&self.cells[ind]),
                None => None,
            }
        } else {
            None
        }
    }

    /// Puts `cell` in the place of the record at `pos`. Nothing else changes.
    pub(crate) fn set_cell(&mut self, pos: &Position2d, cell: C)
        requires
            old(self).wf(),
            pos.0 < old(self).height,
            pos.1 < old(self).width,
        ensures
            final(self).wf(),
            final(self).dims() == old(self).dims(),
            final(self).marks() == old(self).marks(),
            final(self).at(*pos) == cell,
            forall|x: Position2d|
                x.0 < old(self).height && x.1 < old(self).width && x != *pos
                    ==> #[trigger] final(self).at(x) == old(self).at(x),
            final(self).passages() + old(self).at(*pos).passages() == old(self).passages()
                + cell.passages(),
    {
        let ghost before = self.cells@;
        let ghost width = self.width as int;
        let ghost height = self.height as int;
        proof {
            lemma_flat_index(pos.0 as int, pos.1 as int, width, height);
            lemma_passages_update(before, pos.0 * width + pos.1, cell, before.len());
        }
        let ind = pos.0 * self.width + pos.1;
        self.cells.set(ind, cell);
        proof {
            assert forall|x: Position2d|
                x.0 < self.height && x.1 < self.width && x != *pos implies #[trigger] self.at(x)
                == before[x.0 * width + x.1] by {
                lemma_flat_index(x.0 as int, x.1 as int, width, height);
            }
        }
    }

    /// The place of `pos` among the cell records, if it lies within the
    /// bounds.
    pub(crate) fn pos_to_ind(&self, pos: &Position2d) -> (ind: Option<usize>)
        requires
            self.wf(),
        ensures
            ind is Some <==> pos.0 < self.height && pos.1 < self.width,
            ind is Some ==> ind->0 == pos.0 * self.width + pos.1 && ind->0 < self.cells@.len(),
    {
        if pos.0 < self.height && pos.1 < self.width {
            proof {
                lemma_flat_index(
                    pos.0 as int,
                    pos.1 as int,
                    self.width as int,
                    self.height as int,
                );
            }
            Some(pos.0 * self.width + pos.1)
        } else {
            None
        }
    }
}

} // verus!
