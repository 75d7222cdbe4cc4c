//! The triangular topology: three neighbours per cell. Cells stand in rows
//! and columns; a cell points up where row and column add up to an even
//! number, and down otherwise.

use crate::graph::{
    joined, lemma_all_joined_from, lemma_crossing, lemma_joined_self, lemma_joined_step,
    lemma_joined_trans, symmetric, with_pair,
};
use crate::maze::rect::{Error, RectMask};
use crate::maze::{
    adjacency, frame_is_connected, is_connected, lemma_flat_index, lemma_frame_connected,
    lemma_rect_cells, lemma_seq_of, seq_of, DefaultInRectGrid, GeneralRectGrid, Grid2d,
    Position2d,
};
use crate::pos_set::PosSet;
use crate::random::RandomSource;
use crate::reach::check_connected;
use vstd::prelude::*;

verus! {

/// The six directions of a triangular grid: three for a cell that points
/// up, three for one that points down.
#[derive(Debug, Clone, Copy, PartialEq, Eq, PartialOrd, Ord, Hash, Structural)]
pub enum TriDirection {
    Northwest,
    Northeast,
    South,
    SouthWest,
    North,
    Southeast,
}

impl TriDirection {
    /// The directions of a cell that points up, in the order in which its
    /// neighbours are listed.
    pub fn angle_up_all_dirs() -> (dirs: [TriDirection; 3])
        ensures
            dirs@ == seq![TriDirection::Northwest, TriDirection::Northeast, TriDirection::South],
    {
        let dirs = [TriDirection::Northwest, TriDirection::Northeast, TriDirection::South];
        assert(dirs@ =~= seq![
            TriDirection::Northwest,
            TriDirection::Northeast,
            TriDirection::South,
        ]);
        dirs
    }

    /// The directions of a cell that points down, in the order in which its
    /// neighbours are listed.
    pub fn angle_down_all_dirs() -> (dirs: [TriDirection; 3])
        ensures
            dirs@ == seq![TriDirection::SouthWest, TriDirection::North, TriDirection::Southeast],
    {
        let dirs = [TriDirection::SouthWest, TriDirection::North, TriDirection::Southeast];
        assert(dirs@ =~= seq![
            TriDirection::SouthWest,
            TriDirection::North,
            TriDirection::Southeast,
        ]);
        dirs
    }

    /// Whether this is a direction of a cell that points up.
    pub open spec fn is_of_up(self) -> bool {
        self == TriDirection::Northwest || self == TriDirection::Northeast || self
            == TriDirection::South
    }

    /// The opposite direction: the one that leads back from the neighbour.
    pub open spec fn opposite(self) -> TriDirection {
        match self {
            TriDirection::Northwest => TriDirection::Southeast,
            TriDirection::Northeast => TriDirection::SouthWest,
            TriDirection::South => TriDirection::North,
            TriDirection::SouthWest => TriDirection::Northeast,
            TriDirection::North => TriDirection::South,
            TriDirection::Southeast => TriDirection::Northwest,
        }
    }

    /// Whether a cell records its passage in this direction itself:
    /// north-west and south for a cell that points up, south-west for one that
    /// points down. The others are recorded by the neighbour.
    pub open spec fn is_own(self) -> bool {
        self == TriDirection::Northwest || self == TriDirection::South || self
            == TriDirection::SouthWest
    }
}

/// A position by row and column.
#[derive(Debug, Clone, Copy, PartialEq, Eq, PartialOrd, Ord, Hash, Structural)]
pub struct TriPosition {
    pub row: usize,
    pub col: usize,
}

impl From<Position2d> for TriPosition {
    fn from(value: Position2d) -> (pos: Self) {
        TriPosition { row: value.0, col: value.1 }
    }
}

impl vstd::std_specs::convert::FromSpecImpl<Position2d> for TriPosition {
    open spec fn obeys_from_spec() -> bool {
        true
    }

    open spec fn from_spec(value: Position2d) -> Self {
        TriPosition { row: value.0, col: value.1 }
    }
}

impl From<TriPosition> for Position2d {
    fn from(value: TriPosition) -> (pos: Self) {
        Position2d(value.row, value.col)
    }
}

impl vstd::std_specs::convert::FromSpecImpl<TriPosition> for Position2d {
    open spec fn obeys_from_spec() -> bool {
        true
    }

    open spec fn from_spec(value: TriPosition) -> Self {
        Position2d(value.row, value.col)
    }
}

/// Whether the cell at a position points up.
pub open spec fn points_up(pos: Position2d) -> bool {
    (pos.0 + pos.1) % 2 == 0
}

/// Whether the cell at a position points up.
fn is_pointing_up(pos: &Position2d) -> (up: bool)
    ensures
        up == points_up(*pos),
{
    (pos.0 % 2 + pos.1 % 2) % 2 == 0
}

impl TriPosition {
    /// The same row and column as a plain position.
    pub open spec fn pos(self) -> Position2d {
        Position2d(self.row, self.col)
    }

    /// The position in a row and a column.
    pub fn new(row: usize, col: usize) -> (pos: Self)
        ensures
            pos == (TriPosition { row, col }),
    {
        TriPosition { row, col }
    }

    /// Whether `dir` is one of the three directions of the cell at this
    /// position.
    pub open spec fn fits(self, dir: TriDirection) -> bool {
        dir.is_of_up() == points_up(self.pos())
    }

    /// The position one step away in a direction, where the step stays
    /// within the non-negative numbers that a machine word holds.
    pub open spec fn step(self, dir: TriDirection) -> Option<TriPosition> {
        match dir {
            TriDirection::Northwest | TriDirection::SouthWest => if self.col > 0 {
                Some(TriPosition { row: self.row, col: (self.col - 1) as usize })
            } else {
                None
            },
            TriDirection::Northeast | TriDirection::Southeast => if self.col < usize::MAX {
                Some(TriPosition { row: self.row, col: (self.col + 1) as usize })
            } else {
                None
            },
            TriDirection::South => if self.row < usize::MAX {
                Some(TriPosition { row: (self.row + 1) as usize, col: self.col })
            } else {
                None
            },
            TriDirection::North => if self.row > 0 {
                Some(TriPosition { row: (self.row - 1) as usize, col: self.col })
            } else {
                None
            },
        }
    }

    /// The position one step away in a direction, if there is one.
    pub fn neighbor(&self, dir: TriDirection) -> (next: Option<Self>)
        ensures
            next == self.step(dir),
    {
        match dir {
            TriDirection::Northwest | TriDirection::SouthWest => if self.col > 0 {
                Some(Self::new(self.row, self.col - 1))
            } else {
                None
            },
            TriDirection::Northeast | TriDirection::Southeast => if self.col < usize::MAX {
                Some(Self::new(self.row, self.col + 1))
            } else {
                None
            },
            TriDirection::South => if self.row < usize::MAX {
                Some(Self::new(self.row + 1, self.col))
            } else {
                None
            },
            TriDirection::North => if self.row > 0 {
                Some(Self::new(self.row - 1, self.col))
            } else {
                None
            },
        }
    }

    /// A step in one of a cell's directions, followed by the step in the
    /// opposite direction, leads back; and the opposite direction is one of the
    /// neighbour's.
    pub proof fn lemma_step_back(self, dir: TriDirection)
        requires
            self.step(dir) is Some,
            self.fits(dir),
        ensures
            self.step(dir)->0.step(dir.opposite()) == Some(self),
            self.step(dir)->0.fits(dir.opposite()),
            self.step(dir)->0 != self,
    {
    }

    /// Steps in two different directions of a cell lead to different
    /// positions.
    pub proof fn lemma_step_apart(self, dir: TriDirection, other: TriDirection)
        requires
            self.step(dir) is Some,
            self.fits(dir),
            self.fits(other),
            dir != other,
        ensures
            self.step(dir) != self.step(other),
    {
    }
}

/// What a cell of the triangular grid records. A cell that points up has
/// neighbours to the north-west, the north-east and the south, and records
/// the passages to the first and the last; one that points down has
/// neighbours to the south-west, the north and the south-east, and records
/// the passage to the first. The others are recorded by the neighbours.
#[derive(Debug, Clone, Copy)]
pub(crate) enum TriCell {
    AngelUp { is_connected_to_northwest: bool, is_connected_to_south: bool },
    AngelDown { is_connected_to_southwest: bool },
}

impl TriCell {
    /// Whether the cell records a passage in one of its own directions.
    pub(crate) open spec fn is_open(self, dir: TriDirection) -> bool {
        match self {
            TriCell::AngelUp { is_connected_to_northwest, is_connected_to_south } => match dir {
                TriDirection::Northwest => is_connected_to_northwest,
                TriDirection::South => is_connected_to_south,
                _ => false,
            },
            TriCell::AngelDown { is_connected_to_southwest } => match dir {
                TriDirection::SouthWest => is_connected_to_southwest,
                _ => false,
            },
        }
    }

    /// The cell with the passage in one of its own directions recorded.
    pub(crate) open spec fn opened(self, dir: TriDirection) -> TriCell {
        match self {
            TriCell::AngelUp { is_connected_to_northwest, is_connected_to_south } => match dir {
                TriDirection::Northwest => TriCell::AngelUp {
                    is_connected_to_northwest: true,
                    is_connected_to_south,
                },
                TriDirection::South => TriCell::AngelUp {
                    is_connected_to_northwest,
                    is_connected_to_south: true,
                },
                _ => self,
            },
            TriCell::AngelDown { is_connected_to_southwest } => match dir {
                TriDirection::SouthWest => TriCell::AngelDown { is_connected_to_southwest: true },
                _ => self,
            },
        }
    }
}

impl DefaultInRectGrid for TriCell {
    closed spec fn blank_at(pos: Position2d) -> Self {
        if points_up(pos) {
            TriCell::AngelUp { is_connected_to_northwest: false, is_connected_to_south: false }
        } else {
            TriCell::AngelDown { is_connected_to_southwest: false }
        }
    }

    closed spec fn passages(&self) -> nat {
        match self {
            TriCell::AngelUp { is_connected_to_northwest, is_connected_to_south } => (if 
                *is_connected_to_northwest {
                1nat
            } else {
                0nat
            }) + (if *is_connected_to_south {
                1nat
            } else {
                0nat
            }),
            TriCell::AngelDown { is_connected_to_southwest } => if *is_connected_to_southwest {
                1nat
            } else {
                0nat
            },
        }
    }

    proof fn lemma_blank(pos: Position2d) {
    }

    fn default_at(pos: &Position2d) -> (cell: Self) {
        if is_pointing_up(pos) {
            TriCell::AngelUp { is_connected_to_northwest: false, is_connected_to_south: false }
        } else {
            TriCell::AngelDown { is_connected_to_southwest: false }
        }
    }
}

/// A triangular grid, with or without a mask.
#[derive(Debug)]
pub struct TriGrid(pub(crate) GeneralRectGrid<TriCell>);

impl TriGrid {
    /// The same position by row and column.
    pub open spec fn tp(pos: Position2d) -> TriPosition {
        TriPosition { row: pos.0, col: pos.1 }
    }

    /// Whether `pos` is a cell.
    pub open(crate) spec fn has(&self, pos: TriPosition) -> bool {
        self.0.has(pos.pos())
    }

    /// Width and height.
    pub open(crate) spec fn dims(&self) -> (usize, usize) {
        self.0.dims()
    }

    /// The mask's flags, if there is a mask.
    pub open(crate) spec fn marks(&self) -> Option<Seq<bool>> {
        self.0.marks()
    }

    /// The number of passages that the cells record.
    pub open(crate) spec fn passages_n(&self) -> nat {
        self.0.passages()
    }

    /// The cell next to the cell `pos` in direction `dir`, if `dir` is one
    /// of its directions and there is a cell.
    pub open(crate) spec fn neighbor_at(&self, pos: TriPosition, dir: TriDirection) -> Option<
        TriPosition,
    > {
        if self.has(pos) && pos.fits(dir) {
            match pos.step(dir) {
                Some(next) => if self.has(next) {
                    Some(next)
                } else {
                    None
                },
                None => None,
            }
        } else {
            None
        }
    }

    /// The same as a plain position.
    pub open(crate) spec fn toward(&self, pos: Position2d, dir: TriDirection) -> Option<
        Position2d,
    > {
        match self.neighbor_at(Self::tp(pos), dir) {
            Some(next) => Some(next.pos()),
            None => None,
        }
    }

    /// Whether there is a passage from the cell `pos` in direction `dir`.
    /// The cell itself records it for its own directions, the neighbour for
    /// the others.
    pub open(crate) spec fn open_toward(&self, pos: TriPosition, dir: TriDirection) -> bool {
        match self.neighbor_at(pos, dir) {
            None => false,
            Some(next) => if dir.is_own() {
                self.0.at(pos.pos()).is_open(dir)
            } else {
                self.0.at(next.pos()).is_open(dir.opposite())
            },
        }
    }

    /// Whether `b` is the neighbour of `a` in direction `dir`, with a
    /// passage between them.
    pub open(crate) spec fn linked_toward(
        &self,
        a: Position2d,
        b: Position2d,
        dir: TriDirection,
    ) -> bool {
        self.neighbor_at(Self::tp(a), dir) == Some(Self::tp(b)) && self.open_toward(
            Self::tp(a),
            dir,
        )
    }

    /// Whether there is a passage between `a` and `b`.
    pub open(crate) spec fn linked(&self, a: Position2d, b: Position2d) -> bool {
        ||| self.linked_toward(a, b, TriDirection::Northwest)
        ||| self.linked_toward(a, b, TriDirection::Northeast)
        ||| self.linked_toward(a, b, TriDirection::South)
        ||| self.linked_toward(a, b, TriDirection::SouthWest)
        ||| self.linked_toward(a, b, TriDirection::North)
        ||| self.linked_toward(a, b, TriDirection::Southeast)
    }

    /// The cell records fit the size, each record is of the kind that the
    /// cell's position asks for, and a passage is recorded only where there
    /// is a neighbour to lead to.
    pub open(crate) spec fn inv_records(&self) -> bool {
        &&& self.0.wf()
        &&& forall|pos: Position2d|
            pos.0 < self.0.height && pos.1 < self.0.width ==> (#[trigger] self.0.at(pos)
                is AngelUp) == points_up(pos)
        &&& forall|pos: Position2d, dir: TriDirection|
            self.0.has(pos) && #[trigger] self.0.at(pos).is_open(dir) ==> self.neighbor_at(
                Self::tp(pos),
                dir,
            ) is Some
    }

    /// The records are consistent, and the passages are as many as the
    /// records count: the relation holds two ordered pairs for each.
    pub open(crate) spec fn inv(&self) -> bool {
        &&& self.inv_records()
        &&& self.passages().finite()
        &&& self.passages().len() == 2 * self.passages_n()
    }

    /// The cells next to `pos`: north-west, north-east and south of a cell
    /// that points up; south-west, north and south-east of one that points
    /// down.
    pub open(crate) spec fn around(&self, pos: Position2d) -> Seq<Position2d> {
        seq_of(self.toward(pos, TriDirection::Northwest)) + seq_of(
            self.toward(pos, TriDirection::Northeast),
        ) + seq_of(self.toward(pos, TriDirection::South)) + seq_of(
            self.toward(pos, TriDirection::SouthWest),
        ) + seq_of(self.toward(pos, TriDirection::North)) + seq_of(
            self.toward(pos, TriDirection::Southeast),
        )
    }

    /// The passages as pairs of positions, each in both directions.
    pub open(crate) spec fn passages(&self) -> Set<(Position2d, Position2d)> {
        Set::new(|pair: (Position2d, Position2d)| self.linked(pair.0, pair.1))
    }

    /// `b` is next to `a` exactly if it is the neighbour of `a` in one of
    /// its directions.
    pub proof fn lemma_around(&self, a: Position2d, b: Position2d)
        ensures
            self.around(a).contains(b) <==> exists|dir: TriDirection| #[trigger]
                self.toward(a, dir) == Some(b),
    {
        let l1 = seq_of(self.toward(a, TriDirection::Northwest));
        let l2 = l1 + seq_of(self.toward(a, TriDirection::Northeast));
        let l3 = l2 + seq_of(self.toward(a, TriDirection::South));
        let l4 = l3 + seq_of(self.toward(a, TriDirection::SouthWest));
        let l5 = l4 + seq_of(self.toward(a, TriDirection::North));
        lemma_seq_of(Seq::empty(), self.toward(a, TriDirection::Northwest), b);
        lemma_seq_of(l1, self.toward(a, TriDirection::Northeast), b);
        lemma_seq_of(l2, self.toward(a, TriDirection::South), b);
        lemma_seq_of(l3, self.toward(a, TriDirection::SouthWest), b);
        lemma_seq_of(l4, self.toward(a, TriDirection::North), b);
        lemma_seq_of(l5, self.toward(a, TriDirection::Southeast), b);
        if self.around(a).contains(b) {
            let dir = if self.toward(a, TriDirection::Northwest) == Some(b) {
                TriDirection::Northwest
            } else if self.toward(a, TriDirection::Northeast) == Some(b) {
                TriDirection::Northeast
            } else if self.toward(a, TriDirection::South) == Some(b) {
                TriDirection::South
            } else if self.toward(a, TriDirection::SouthWest) == Some(b) {
                TriDirection::SouthWest
            } else if self.toward(a, TriDirection::North) == Some(b) {
                TriDirection::North
            } else {
                TriDirection::Southeast
            };
            assert(self.toward(a, dir) == Some(b));
        }
    }

    /// The neighbour in a direction has the cell as its neighbour in the
    /// opposite direction, and the passage between them is the same from both
    /// sides.
    pub proof fn lemma_neighbor_back(&self, pos: TriPosition, dir: TriDirection)
        requires
            self.neighbor_at(pos, dir) is Some,
        ensures
            self.neighbor_at(self.neighbor_at(pos, dir)->0, dir.opposite()) == Some(pos),
            self.neighbor_at(pos, dir)->0 != pos,
            self.open_toward(self.neighbor_at(pos, dir)->0, dir.opposite()) == self.open_toward(
                pos,
                dir,
            ),
    {
        pos.lemma_step_back(dir);
    }

    /// Being next to each other is mutual, and holds of two different cells
    /// only.
    pub proof fn lemma_around_back(&self, a: Position2d, b: Position2d)
        requires
            self.around(a).contains(b),
        ensures
            self.has(Self::tp(a)),
            self.has(Self::tp(b)),
            a != b,
            self.around(b).contains(a),
    {
        self.lemma_around(a, b);
        self.lemma_around(b, a);
        let dir = choose|dir: TriDirection| #[trigger] self.toward(a, dir) == Some(b);
        let from = Self::tp(a);
        let to = Self::tp(b);
        assert(to.pos() == b && from.pos() == a);
        self.lemma_neighbor_back(from, dir);
        assert(self.toward(b, dir.opposite()) == Some(a));
    }

    /// Two cells are linked exactly if one is the neighbour of the other in
    /// some direction and the passage that way is open.
    pub proof fn lemma_linked(&self, a: Position2d, b: Position2d)
        ensures
            self.linked(a, b) <==> exists|dir: TriDirection| #[trigger]
                self.linked_toward(a, b, dir),
    {
        if self.linked(a, b) {
            let dir = if self.linked_toward(a, b, TriDirection::Northwest) {
                TriDirection::Northwest
            } else if self.linked_toward(a, b, TriDirection::Northeast) {
                TriDirection::Northeast
            } else if self.linked_toward(a, b, TriDirection::South) {
                TriDirection::South
            } else if self.linked_toward(a, b, TriDirection::SouthWest) {
                TriDirection::SouthWest
            } else if self.linked_toward(a, b, TriDirection::North) {
                TriDirection::North
            } else {
                TriDirection::Southeast
            };
            assert(self.linked_toward(a, b, dir));
        }
    }

    /// A passage runs between neighbours, and in both directions.
    pub proof fn lemma_linked_back(&self, a: Position2d, b: Position2d)
        requires
            self.linked(a, b),
        ensures
            self.around(a).contains(b),
            self.linked(b, a),
    {
        self.lemma_around(a, b);
        self.lemma_linked(a, b);
        let from = Self::tp(a);
        let to = Self::tp(b);
        assert(to.pos() == b && from.pos() == a);
        let dir = choose|dir: TriDirection| #[trigger] self.linked_toward(a, b, dir);
        assert(self.toward(a, dir) == Some(b));
        self.lemma_neighbor_back(from, dir);
        assert(self.linked_toward(b, a, dir.opposite()));
    }

    /// A passage between two cells is one in both directions.
    proof fn lemma_linked_sym(&self, a: Position2d, b: Position2d)
        ensures
            self.linked(a, b) == self.linked(b, a),
    {
        if self.linked(a, b) {
            self.lemma_linked_back(a, b);
        }
        if self.linked(b, a) {
            self.lemma_linked_back(b, a);
        }
    }

    /// A passage leads from a cell in a direction exactly if the cell and its
    /// neighbour there are linked.
    pub proof fn lemma_open_toward(&self, pos: TriPosition, dir: TriDirection)
        requires
            self.inv(),
        ensures
            self.open_toward(pos, dir) == match self.neighbor_at(pos, dir) {
                Some(next) => self.passages().contains((pos.pos(), next.pos())),
                None => false,
            },
    {
        if self.neighbor_at(pos, dir) is Some {
            let next = self.neighbor_at(pos, dir)->0;
            self.lemma_linked(pos.pos(), next.pos());
            assert(Self::tp(pos.pos()) == pos && Self::tp(next.pos()) == next);
            if self.open_toward(pos, dir) {
                assert(self.linked_toward(pos.pos(), next.pos(), dir));
            }
            if self.linked(pos.pos(), next.pos()) {
                let d = choose|d: TriDirection| #[trigger]
                    self.linked_toward(pos.pos(), next.pos(), d);
                if d != dir {
                    pos.lemma_step_apart(dir, d);
                }
            }
        }
    }

    /// In a grid without mask that is at least two cells wide, every cell
    /// can be reached from the first: along its row, and from row to row
    /// through a cell that points up.
    proof fn lemma_reach(&self, p: Position2d)
        requires
            self.inv(),
            self.0.mask is None,
            self.0.width >= 2 || self.0.height <= 2,
            self.0.has(p),
        ensures
            joined(adjacency(self), Position2d(0, 0), p),
        decreases p.0, p.1,
    {
        let adj = adjacency(self);
        let origin = Position2d(0, 0);
        if p.1 > 0 {
            let q = Position2d(p.0, (p.1 - 1) as usize);
            self.lemma_reach(q);
            self.lemma_beside(q);
            lemma_joined_step(adj, q, p);
            lemma_joined_trans(adj, origin, q, p);
        } else if p.0 > 0 {
            let above = Position2d((p.0 - 1) as usize, 0);
            if points_up(above) {
                self.lemma_reach(above);
                self.lemma_around(above, p);
                assert(self.toward(above, TriDirection::South) == Some(p));
                lemma_joined_step(adj, above, p);
                lemma_joined_trans(adj, origin, above, p);
            } else {
                let up = Position2d((p.0 - 1) as usize, 1);
                let beside = Position2d(p.0, 1);
                self.lemma_reach(up);
                self.lemma_around(up, beside);
                assert(self.toward(up, TriDirection::South) == Some(beside));
                lemma_joined_step(adj, up, beside);
                self.lemma_beside(p);
                self.lemma_graph();
                lemma_joined_step(adj, beside, p);
                lemma_joined_trans(adj, origin, up, beside);
                lemma_joined_trans(adj, origin, beside, p);
            }
        } else {
            lemma_joined_self(adj, p);
        }
    }

    /// A cell is next to the cell after it in its row.
    proof fn lemma_beside(&self, p: Position2d)
        requires
            self.inv(),
            self.0.has(p),
            self.0.has(Position2d(p.0, (p.1 + 1) as usize)),
            p.1 < usize::MAX,
        ensures
            adjacency(self).contains((p, Position2d(p.0, (p.1 + 1) as usize))),
    {
        let q = Position2d(p.0, (p.1 + 1) as usize);
        self.lemma_around(p, q);
        if points_up(p) {
            assert(self.toward(p, TriDirection::Northeast) == Some(q));
        } else {
            assert(self.toward(p, TriDirection::Southeast) == Some(q));
        }
    }

    /// A grid without mask that is at least two cells wide, or at most two
    /// cells high, is connected.
    pub proof fn lemma_connected(&self)
        requires
            self.inv(),
            self.marks() is None,
            self.dims().0 >= 2 || self.dims().1 <= 2,
        ensures
            is_connected(self),
    {
        self.lemma_graph();
        let adj = adjacency(self);
        assert(symmetric(adj));
        assert forall|p: Position2d| self.cells().contains(p) implies #[trigger] joined(
            adj,
            Position2d(0, 0),
            p,
        ) by {
            self.lemma_reach(p);
        }
        lemma_all_joined_from(self.cells(), adj, Position2d(0, 0));
    }

    /// A grid without mask that is a single column of more than two cells
    /// is not connected: no step leads from its second cell to its third.
    pub proof fn lemma_column_apart(&self)
        requires
            self.inv(),
            self.marks() is None,
            self.dims().0 == 1,
            self.dims().1 > 2,
        ensures
            !is_connected(self),
    {
        let adj = adjacency(self);
        let top = Position2d(0, 0);
        let low = Position2d(2, 0);
        assert(self.cells().contains(top) && self.cells().contains(low));
        if joined(adj, top, low) {
            let inside = Set::new(|p: Position2d| p.0 <= 1);
            let pair = lemma_crossing(adj, inside, top, low);
            self.lemma_around(pair.0, pair.1);
            let dir = choose|dir: TriDirection| #[trigger] self.toward(pair.0, dir) == Some(pair.1);
            assert(self.toward(pair.0, dir) == Some(pair.1));
            assert(pair.0.1 == 0 && pair.1.1 == 0);
            assert(points_up(Position2d(0, 0)) && !points_up(Position2d(1, 0)));
        }
    }

    /// A grid of `width` by `height` cells without passages. It is
    /// connected unless it is a single column of more than two cells.
    pub fn new(width: usize, height: usize) -> (grid: Self)
        requires
            width * height <= usize::MAX,
        ensures
            grid.valid(),
            grid.dims() == (width, height),
            grid.marks() is None,
            grid.links() == Set::<(Position2d, Position2d)>::empty(),
            grid.links_n() == 0,
            is_connected(&grid) == (width != 1 || height <= 2),
    {
        let grid = TriGrid(GeneralRectGrid::new(width, height));
        proof {
            grid.lemma_fresh();
            if width >= 2 || height <= 2 {
                grid.lemma_connected();
            } else if width == 1 {
                grid.lemma_column_apart();
            } else {
                assert(grid.cells() =~= Set::<Position2d>::empty());
            }
        }
        grid
    }

    /// A grid without passages whose cells are the positions that the mask
    /// marks. Whether the cells hang together is not looked at here:
    /// `try_with_mask` does that.
    pub fn with_mask(mask: &RectMask) -> (grid: Self)
        requires
            mask.wf(),
        ensures
            grid.valid(),
            grid.dims() == mask.dims(),
            grid.marks() == Some(mask.marks()),
            grid.links() == Set::<(Position2d, Position2d)>::empty(),
            grid.links_n() == 0,
    {
        let grid = TriGrid(GeneralRectGrid::with_mask(mask));
        proof {
            grid.lemma_fresh();
        }
        grid
    }

    /// A grid without passages whose cells are the positions that the mask
    /// marks, where every cell can be reached from every other from triangle to triangle;
    /// refused otherwise.
    pub fn try_with_mask(mask: &RectMask) -> (made: Result<Self, Error>)
        requires
            mask.wf(),
        ensures
            made is Ok <==> frame_is_connected::<TriGrid>(
                (mask.dims().0, mask.dims().1, Some(mask.marks())),
            ),
            match made {
                Ok(grid) => {
                    &&& grid.valid()
                    &&& grid.dims() == mask.dims()
                    &&& grid.marks() == Some(mask.marks())
                    &&& grid.links() == Set::<(Position2d, Position2d)>::empty()
                    &&& grid.links_n() == 0
                    &&& is_connected(&grid)
                },
                Err(err) => err == Error::IsolatedAreaInRectMask,
            },
    {
        let grid = Self::with_mask(mask);
        proof {
            lemma_frame_connected(&grid);
        }
        if check_connected(&grid) {
            Ok(grid)
        } else {
            Err(Error::IsolatedAreaInRectMask)
        }
    }

    /// The cell next to the cell `pos` in direction `dir`, if `dir` is one
    /// of its directions and there is a cell.
    pub fn neighbor_pos(&self, pos: &TriPosition, dir: TriDirection) -> (next: Option<TriPosition>)
        requires
            self.inv(),
        ensures
            next == self.neighbor_at(*pos, dir),
    {
        let at = Position2d(pos.row, pos.col);
        match self.0.cell(&at) {
            None => None,
            Some(cell) => {
                let dirs = match cell {
                    TriCell::AngelUp { .. } => TriDirection::angle_up_all_dirs(),
                    TriCell::AngelDown { .. } => TriDirection::angle_down_all_dirs(),
                };
                if dirs[0] == dir || dirs[1] == dir || dirs[2] == dir {
                    match pos.neighbor(dir) {
                        Some(next) => if self.0.is_cell(&Position2d(next.row, next.col)) {
                            Some(next)
                        } else {
                            None
                        },
                        None => None,
                    }
                } else {
                    None
                }
            },
        }
    }

    /// Records the passage from the cell `owner` in one of its own
    /// directions, where it has a neighbour.
    fn open_own(&mut self, owner: &TriPosition, dir: TriDirection)
        requires
            old(self).inv(),
            dir.is_own(),
            old(self).neighbor_at(*owner, dir) is Some,
        ensures
            final(self).inv(),
            final(self).dims() == old(self).dims(),
            final(self).marks() == old(self).marks(),
            final(self).passages() == with_pair(
                old(self).passages(),
                owner.pos(),
                old(self).neighbor_at(*owner, dir)->0.pos(),
            ),
            final(self).passages_n() == old(self).passages_n() + if !old(self).open_toward(
                *owner,
                dir,
            ) {
                1nat
            } else {
                0nat
            },
    {
        let ghost before = *self;
        let at = Position2d(owner.row, owner.col);
        let cell = match *self.0.cell(&at).unwrap() {
            TriCell::AngelUp { is_connected_to_northwest, is_connected_to_south } => match dir {
                TriDirection::Northwest => TriCell::AngelUp {
                    is_connected_to_northwest: true,
                    is_connected_to_south,
                },
                _ => TriCell::AngelUp { is_connected_to_northwest, is_connected_to_south: true },
            },
            TriCell::AngelDown { .. } => TriCell::AngelDown { is_connected_to_southwest: true },
        };
        self.0.set_cell(&at, cell);
        proof {
            Self::lemma_opened(&before, &*self, *owner, dir);
            before.lemma_counted(*owner, dir);
        }
    }

    /// What adding the passage from `pos` in direction `dir` does to the
    /// number of ordered pairs.
    proof fn lemma_counted(&self, pos: TriPosition, dir: TriDirection)
        requires
            self.inv(),
            self.neighbor_at(pos, dir) is Some,
        ensures
            with_pair(self.passages(), pos.pos(), self.neighbor_at(pos, dir)->0.pos()).finite(),
            with_pair(self.passages(), pos.pos(), self.neighbor_at(pos, dir)->0.pos()).len()
                == self.passages().len() + if self.open_toward(pos, dir) {
                0nat
            } else {
                2nat
            },
    {
        let next = self.neighbor_at(pos, dir)->0;
        self.lemma_open_toward(pos, dir);
        self.lemma_neighbor_back(pos, dir);
        assert(crate::graph::symmetric(self.passages())) by {
            assert forall|a: Position2d, b: Position2d| #[trigger]
                self.passages().contains((a, b)) implies self.passages().contains((b, a)) by {
                self.lemma_linked_back(a, b);
            }
        }
        crate::graph::lemma_with_pair_len(self.passages(), pos.pos(), next.pos());
    }

    /// What the passages are after the record of `pos` has gained the
    /// passage in one of its own directions.
    proof fn lemma_opened(before: &Self, after: &Self, pos: TriPosition, dir: TriDirection)
        requires
            before.inv(),
            after.0.wf(),
            dir.is_own(),
            before.neighbor_at(pos, dir) is Some,
            after.dims() == before.dims(),
            after.marks() == before.marks(),
            after.0.at(pos.pos()) == before.0.at(pos.pos()).opened(dir),
            forall|x: Position2d|
                x.0 < before.0.height && x.1 < before.0.width && x != pos.pos()
                    ==> #[trigger] after.0.at(x) == before.0.at(x),
        ensures
            after.inv_records(),
            after.passages() == with_pair(
                before.passages(),
                pos.pos(),
                before.neighbor_at(pos, dir)->0.pos(),
            ),
    {
        let next = before.neighbor_at(pos, dir)->0;
        pos.lemma_step_back(dir);
        assert forall|x: TriPosition, d: TriDirection|
            after.neighbor_at(x, d) == before.neighbor_at(x, d) by {}
        assert forall|x: Position2d|
            x.0 < after.0.height && x.1 < after.0.width implies (#[trigger] after.0.at(x)
            is AngelUp) == points_up(x) by {
            assert((before.0.at(x) is AngelUp) == points_up(x));
        }
        assert forall|x: Position2d, d: TriDirection|
            after.0.has(x) && #[trigger] after.0.at(x).is_open(d) implies after.neighbor_at(
            Self::tp(x),
            d,
        ) is Some by {
            assert(before.0.has(x));
            if x != pos.pos() || d != dir {
                assert(before.0.at(x).is_open(d));
            }
        }
        assert forall|a: Position2d, b: Position2d, d: TriDirection|
            #[trigger] after.linked_toward(a, b, d) == (before.linked_toward(a, b, d) || (d == dir
                && a == pos.pos() && b == next.pos()) || (d == dir.opposite() && a == next.pos()
                && b == pos.pos())) by {
            let from = Self::tp(a);
            let to = Self::tp(b);
            assert(from.pos() == a && to.pos() == b);
            if before.neighbor_at(from, d) == Some(to) {
                from.lemma_step_back(d);
                assert((before.0.at(a) is AngelUp) == points_up(a));
                assert((before.0.at(b) is AngelUp) == points_up(b));
                assert((before.0.at(pos.pos()) is AngelUp) == points_up(pos.pos()));
                if d.is_own() {
                    if from == pos && d != dir {
                        pos.lemma_step_apart(dir, d);
                    }
                } else {
                    if to == pos && d.opposite() != dir {
                        pos.lemma_step_apart(dir, d.opposite());
                    }
                }
            }
        }
        let grown = with_pair(before.passages(), pos.pos(), next.pos());
        assert forall|pair: (Position2d, Position2d)| after.passages().contains(pair)
            == grown.contains(pair) by {
            after.lemma_linked(pair.0, pair.1);
            before.lemma_linked(pair.0, pair.1);
            if after.linked(pair.0, pair.1) {
                let d = choose|d: TriDirection| #[trigger]
                    after.linked_toward(pair.0, pair.1, d);
                assert(before.linked_toward(pair.0, pair.1, d) || pair == (pos.pos(), next.pos())
                    || pair == (next.pos(), pos.pos()));
            }
            if before.linked(pair.0, pair.1) {
                let d = choose|d: TriDirection| #[trigger]
                    before.linked_toward(pair.0, pair.1, d);
                assert(after.linked_toward(pair.0, pair.1, d));
            }
            if pair == (pos.pos(), next.pos()) {
                assert(after.linked_toward(pair.0, pair.1, dir));
            }
            if pair == (next.pos(), pos.pos()) {
                assert(after.linked_toward(pair.0, pair.1, dir.opposite()));
            }
        }
        assert(after.passages() =~= grown);
    }

    /// Appends the neighbour of `pos` in direction `dir`, if there is one.
    fn push_toward(&self, pos: &Position2d, dir: TriDirection, neighbors: &mut Vec<Position2d>)
        requires
            self.inv(),
        ensures
            final(neighbors)@ == old(neighbors)@ + seq_of(self.toward(*pos, dir)),
    {
        match self.neighbor_pos(&TriPosition::new(pos.0, pos.1), dir) {
            Some(next) => {
                neighbors.push(Position2d(next.row, next.col));
                assert(neighbors@ =~= old(neighbors)@ + seq_of(self.toward(*pos, dir)));
            },
            None => {
                assert(neighbors@ =~= old(neighbors)@ + seq_of(self.toward(*pos, dir)));
            },
        }
    }

    /// A grid of fresh cells is valid and has no passage.
    proof fn lemma_fresh(&self)
        requires
            self.0.wf(),
            self.0.is_fresh(),
        ensures
            self.inv(),
            self.passages() == Set::<(Position2d, Position2d)>::empty(),
            self.passages_n() == 0,
    {
        self.0.lemma_fresh();
        assert forall|pos: Position2d|
            pos.0 < self.0.height && pos.1 < self.0.width implies self.0.at(pos)
            == TriCell::blank_at(pos) by {
            lemma_flat_index(
                pos.0 as int,
                pos.1 as int,
                self.0.width as int,
                self.0.height as int,
            );
        }
        assert forall|pos: Position2d, dir: TriDirection|
            self.0.has(pos) implies !#[trigger] self.0.at(pos).is_open(dir) by {
            assert(self.0.at(pos) == TriCell::blank_at(pos));
        }
        assert forall|pos: Position2d|
            pos.0 < self.0.height && pos.1 < self.0.width implies (#[trigger] self.0.at(pos)
            is AngelUp) == points_up(pos) by {
            assert(self.0.at(pos) == TriCell::blank_at(pos));
        }
        assert forall|pair: (Position2d, Position2d)| !self.passages().contains(pair) by {
            self.lemma_linked(pair.0, pair.1);
            if self.linked(pair.0, pair.1) {
                let d = choose|d: TriDirection| #[trigger]
                    self.linked_toward(pair.0, pair.1, d);
                let a = Self::tp(pair.0);
                let b = Self::tp(pair.1);
                assert(self.0.has(a.pos()) && self.0.has(b.pos()));
            }
        }
        assert(self.passages() =~= Set::<(Position2d, Position2d)>::empty());
    }

    /// The direction in which `to` is the neighbour of `from`, if it is a
    /// neighbour.
    fn find_dir(&self, from: &TriPosition, to: &TriPosition) -> (found: Option<TriDirection>)
        requires
            self.inv(),
        ensures
            found is Some ==> self.neighbor_at(*from, found->0) == Some(*to),
            found is Some <==> self.around(from.pos()).contains(to.pos()),
    {
        proof {
            self.lemma_around(from.pos(), to.pos());
            assert(Self::tp(from.pos()) == *from);
        }
        let at = Position2d(from.row, from.col);
        let Some(cell) = self.0.cell(&at) else {
            return None;
        };
        let dirs = match cell {
            TriCell::AngelUp { .. } => TriDirection::angle_up_all_dirs(),
            TriCell::AngelDown { .. } => TriDirection::angle_down_all_dirs(),
        };
        let mut i: usize = 0;
        while i < 3
            invariant
                i <= 3,
                self.inv(),
                forall|j: int|
                    0 <= j < i ==> self.neighbor_at(*from, #[trigger] dirs@[j]) != Some(*to),
            decreases 3 - i,
        {
            let dir = dirs[i];
            let here = match self.neighbor_pos(from, dir) {
                Some(next) => next.row == to.row && next.col == to.col,
                None => false,
            };
            if here {
                proof {
                    self.lemma_around(from.pos(), to.pos());
                    assert(Self::tp(from.pos()) == *from);
                    assert(self.toward(from.pos(), dir) == Some(to.pos()));
                }
                return Some(dir);
            }
            i += 1;
        }
        proof {
            if self.around(from.pos()).contains(to.pos()) {
                let d = choose|d: TriDirection| #[trigger]
                    self.toward(from.pos(), d) == Some(to.pos());
                assert(self.neighbor_at(*from, d)->0.pos() == to.pos());
                assert(self.neighbor_at(*from, d) == Some(*to));
                assert(from.fits(d));
                assert((self.0.at(at) is AngelUp) == points_up(at));
                assert(d == dirs@[0] || d == dirs@[1] || d == dirs@[2]);
            }
        }
        None
    }

    /// Opens the passage between `from` and its neighbour `to` in
    /// direction `dir`, in the record of the one that keeps it.
    fn open_pair(&mut self, from: &TriPosition, to: &TriPosition, dir: TriDirection)
        requires
            old(self).inv(),
            old(self).neighbor_at(*from, dir) == Some(*to),
        ensures
            final(self).inv(),
            final(self).dims() == old(self).dims(),
            final(self).marks() == old(self).marks(),
            final(self).passages() == with_pair(old(self).passages(), from.pos(), to.pos()),
            final(self).passages_n() == old(self).passages_n() + if !old(self).passages().contains(
                (from.pos(), to.pos()),
            ) {
                1nat
            } else {
                0nat
            },
    {
        proof {
            self.lemma_neighbor_back(*from, dir);
            self.lemma_open_toward(*from, dir);
            self.lemma_open_toward(*to, dir.opposite());
            self.lemma_linked_sym(from.pos(), to.pos());
            assert(with_pair(self.passages(), to.pos(), from.pos()) =~= with_pair(
                self.passages(),
                from.pos(),
                to.pos(),
            ));
        }
        match dir {
            TriDirection::Northwest => self.open_own(from, TriDirection::Northwest),
            TriDirection::Northeast => self.open_own(to, TriDirection::SouthWest),
            TriDirection::South => self.open_own(from, TriDirection::South),
            TriDirection::SouthWest => self.open_own(from, TriDirection::SouthWest),
            TriDirection::North => self.open_own(to, TriDirection::South),
            TriDirection::Southeast => self.open_own(to, TriDirection::Northwest),
        }
    }

    /// Whether there is a passage from the cell `tri_pos` in direction
    /// `dir`: read from the cell for its own directions, from the neighbour
    /// for the others.
    pub(crate) fn is_open_toward(&self, tri_pos: &TriPosition, dir: TriDirection) -> (open: bool)
        requires
            self.inv(),
        ensures
            open == self.open_toward(*tri_pos, dir),
        decreases
            (if dir.is_own() {
                0nat
            } else {
                1nat
            }),
    {
        let pos = Position2d(tri_pos.row, tri_pos.col);
        match self.0.cell(&pos) {
            None => false,
            Some(cell) => {
                proof {
                    assert((self.0.at(pos) is AngelUp) == points_up(pos));
                    assert(cell.is_open(dir) ==> self.neighbor_at(*tri_pos, dir) is Some);
                }
                match cell {
                    TriCell::AngelUp { is_connected_to_northwest, is_connected_to_south } => match dir {
                        TriDirection::Northwest => *is_connected_to_northwest,
                        TriDirection::South => *is_connected_to_south,
                        TriDirection::Northeast => match self.neighbor_pos(
                            tri_pos,
                            TriDirection::Northeast,
                        ) {
                            Some(neighbor) => {
                                proof {
                                    self.lemma_neighbor_back(*tri_pos, dir);
                                }
                                self.is_open_toward(&neighbor, TriDirection::SouthWest)
                            },
                            None => false,
                        },
                        _ => false,
                    },
                    TriCell::AngelDown { is_connected_to_southwest } => match dir {
                        TriDirection::SouthWest => *is_connected_to_southwest,
                        TriDirection::North => match self.neighbor_pos(
                            tri_pos,
                            TriDirection::North,
                        ) {
                            Some(neighbor) => {
                                proof {
                                    self.lemma_neighbor_back(*tri_pos, dir);
                                }
                                self.is_open_toward(&neighbor, TriDirection::South)
                            },
                            None => false,
                        },
                        TriDirection::Southeast => match self.neighbor_pos(
                            tri_pos,
                            TriDirection::Southeast,
                        ) {
                            Some(neighbor) => {
                                proof {
                                    self.lemma_neighbor_back(*tri_pos, dir);
                                }
                                self.is_open_toward(&neighbor, TriDirection::Northwest)
                            },
                            None => false,
                        },
                        _ => false,
                    },
                }
            },
        }
    }
}

impl Grid2d for TriGrid {
    type Frame = (usize, usize, Option<Seq<bool>>);

    open(crate) spec fn valid(&self) -> bool {
        self.inv()
    }

    open(crate) spec fn frame(&self) -> (usize, usize, Option<Seq<bool>>) {
        (self.0.width, self.0.height, self.0.marks())
    }

    open(crate) spec fn cells(&self) -> Set<Position2d> {
        self.0.cell_set()
    }

    open(crate) spec fn neighbors_of(&self, pos: Position2d) -> Seq<Position2d> {
        self.around(pos)
    }

    open(crate) spec fn links(&self) -> Set<(Position2d, Position2d)> {
        self.passages()
    }

    open(crate) spec fn links_n(&self) -> nat {
        self.passages_n()
    }

    proof fn lemma_graph(&self) {
        lemma_rect_cells(self.0.width as nat, self.0.height as nat, self.0.marks());
        assert forall|a: Position2d, b: Position2d| #[trigger]
            self.neighbors_of(a).contains(b) implies self.cells().contains(a)
            && self.cells().contains(b) && a != b && self.neighbors_of(b).contains(a) by {
            self.lemma_around_back(a, b);
        }
        assert forall|a: Position2d, b: Position2d| #[trigger]
            self.links().contains((a, b)) implies self.neighbors_of(a).contains(b)
            && self.links().contains((b, a)) by {
            self.lemma_linked_back(a, b);
        }
    }

    proof fn lemma_frame(&self, other: &Self) {
    }

    fn cells_n(&self) -> (n: usize) {
        self.0.cells_n()
    }

    fn random_cell_pos(&self, rng: &mut RandomSource) -> (picked: Option<Position2d>) {
        self.0.random_cell_pos(rng)
    }

    fn all_cells_pos_set(&self) -> (all: PosSet) {
        self.0.all_cells_pos_set()
    }

    fn append_neighbors(&self, pos: &Position2d, neighbors: &mut Vec<Position2d>) {
        let ghost start = neighbors@;
        if let Some(cell) = self.0.cell(pos) {
            proof {
                assert((self.0.at(*pos) is AngelUp) == points_up(*pos));
            }
            let dirs = match cell {
                TriCell::AngelUp { .. } => TriDirection::angle_up_all_dirs(),
                TriCell::AngelDown { .. } => TriDirection::angle_down_all_dirs(),
            };
            self.push_toward(pos, dirs[0], neighbors);
            self.push_toward(pos, dirs[1], neighbors);
            self.push_toward(pos, dirs[2], neighbors);
        }
        assert(neighbors@ =~= start + self.around(*pos));
    }

    fn connect_to(&mut self, from: &Position2d, to: &Position2d) -> (connected: bool) {
        let tri_from = TriPosition::new(from.0, from.1);
        let tri_to = TriPosition::new(to.0, to.1);
        match self.find_dir(&tri_from, &tri_to) {
            None => false,
            Some(dir) => {
                self.open_pair(&tri_from, &tri_to, dir);
                true
            },
        }
    }
}

/// A finished triangular maze.
#[derive(Debug)]
pub struct TriMaze(pub(crate) TriGrid);

impl TriMaze {
    /// The maze's grid is valid.
    pub open(crate) spec fn valid(&self) -> bool {
        self.0.valid()
    }

    /// Width and height.
    pub open(crate) spec fn dims(&self) -> (usize, usize) {
        self.0.dims()
    }

    /// The cells.
    pub open(crate) spec fn cells(&self) -> Set<Position2d> {
        self.0.cells()
    }

    /// The passages, each as a pair of positions in both directions.
    pub open(crate) spec fn links(&self) -> Set<(Position2d, Position2d)> {
        self.0.links()
    }

    /// The number of passages.
    pub open(crate) spec fn links_n(&self) -> nat {
        self.0.links_n()
    }

    /// The position one step from `pos` in direction `dir`, where both are
    /// cells and `dir` is a direction of the cell at `pos`.
    pub open(crate) spec fn neighbor_at(&self, pos: TriPosition, dir: TriDirection) -> Option<
        TriPosition,
    > {
        self.0.neighbor_at(pos, dir)
    }

    /// The finished maze of a grid.
    pub fn new(grid: TriGrid) -> (maze: Self)
        ensures
            maze.valid() == grid.valid(),
            maze.dims() == grid.dims(),
            maze.cells() == grid.cells(),
            maze.links() == grid.links(),
            maze.links_n() == grid.links_n(),
    {
        TriMaze(grid)
    }

    /// Whether a wall stands on the side `dir` of the position `pos`: on
    /// the side of a cell where no passage leads that way, and on the side
    /// of a position that is no cell where a cell lies that way.
    pub open(crate) spec fn wall_at(&self, pos: TriPosition, dir: TriDirection) -> bool {
        if self.cells().contains(pos.pos()) {
            match self.neighbor_at(pos, dir) {
                Some(next) => !self.links().contains((pos.pos(), next.pos())),
                None => true,
            }
        } else {
            match pos.step(dir) {
                Some(next) => self.cells().contains(next.pos()),
                None => false,
            }
        }
    }

    /// Whether a wall stands on the side `dir` of the position `pos`.
    pub fn has_wall(&self, pos: &TriPosition, dir: TriDirection) -> (wall: bool)
        requires
            self.valid(),
        ensures
            wall == self.wall_at(*pos, dir),
    {
        if self.is_cell(pos) {
            !self.is_connected_to(pos, dir)
        } else {
            match pos.neighbor(dir) {
                Some(neighbor) => self.is_cell(&neighbor),
                None => false,
            }
        }
    }

    /// Width and height.
    pub fn size(&self) -> (dims: (usize, usize))
        ensures
            dims == self.dims(),
    {
        self.0.0.size()
    }

    /// Whether `pos` is a cell.
    pub fn is_cell(&self, pos: &TriPosition) -> (found: bool)
        requires
            self.valid(),
        ensures
            found == self.cells().contains(pos.pos()),
    {
        self.0.0.is_cell(&Position2d(pos.row, pos.col))
    }

    /// Whether there is a passage from the cell `tri_pos` in direction
    /// `dir`, whichever of the two cells records it.
    pub fn is_connected_to(&self, tri_pos: &TriPosition, dir: TriDirection) -> (open: bool)
        requires
            self.valid(),
        ensures
            open == match self.neighbor_at(*tri_pos, dir) {
                Some(next) => self.links().contains((tri_pos.pos(), next.pos())),
                None => false,
            },
    {
        proof {
            self.0.lemma_open_toward(*tri_pos, dir);
        }
        self.0.is_open_toward(tri_pos, dir)
    }

    /// Whether the cell at `pos` points up.
    pub fn is_angle_up(&self, pos: &TriPosition) -> (up: bool)
        ensures
            up == points_up(pos.pos()),
    {
        match TriCell::default_at(&Position2d(pos.row, pos.col)) {
            TriCell::AngelUp { .. } => true,
            TriCell::AngelDown { .. } => false,
        }
    }
}

} // verus!
