//! The hexagonal topology: six neighbours per cell. Cells stand in rows and
//! columns; the cells of an odd column sit half a cell lower than those of an
//! even column.

use crate::graph::with_pair;
use crate::maze::rect::{Error, RectMask};
use crate::maze::{
    adjacency, frame_is_connected, is_connected, lemma_flat_index, lemma_frame_connected,
    lemma_rect_cells, lemma_rect_grid_connected, lemma_seq_of, rect_adjacency, rect_cells, seq_of,
    DefaultInRectGrid, GeneralRectGrid, Grid2d, LayerGrid, MaskType, NoMask, Position2d, WithMask,
};
use crate::pos_set::PosSet;
use crate::random::RandomSource;
use crate::reach::check_connected;
use std::marker::PhantomData;
use vstd::prelude::*;

verus! {

/// The six directions of a hexagonal grid.
#[derive(Debug, Clone, Copy, PartialEq, Eq, PartialOrd, Ord, Hash, Structural)]
pub enum HexaDirection {
    North,
    NorthEast,
    SouthEast,
    South,
    SouthWest,
    NorthWest,
}

impl HexaDirection {
    /// The six directions, in the order in which neighbours are listed.
    pub fn all_dirs() -> (dirs: [HexaDirection; 6])
        ensures
            dirs@ == seq![
                HexaDirection::North,
                HexaDirection::NorthEast,
                HexaDirection::SouthEast,
                HexaDirection::NorthWest,
                HexaDirection::SouthWest,
                HexaDirection::South,
            ],
    {
        let dirs = [
            HexaDirection::North,
            HexaDirection::NorthEast,
            HexaDirection::SouthEast,
            HexaDirection::NorthWest,
            HexaDirection::SouthWest,
            HexaDirection::South,
        ];
        assert(dirs@ =~= seq![
            HexaDirection::North,
            HexaDirection::NorthEast,
            HexaDirection::SouthEast,
            HexaDirection::NorthWest,
            HexaDirection::SouthWest,
            HexaDirection::South,
        ]);
        dirs
    }

    /// The opposite direction.
    pub open spec fn opposite(self) -> HexaDirection {
        match self {
            HexaDirection::North => HexaDirection::South,
            HexaDirection::NorthEast => HexaDirection::SouthWest,
            HexaDirection::SouthEast => HexaDirection::NorthWest,
            HexaDirection::South => HexaDirection::North,
            HexaDirection::SouthWest => HexaDirection::NorthEast,
            HexaDirection::NorthWest => HexaDirection::SouthEast,
        }
    }

    /// Whether a cell records its passage in this direction itself: north,
    /// north-west and south-west. The others are recorded by the neighbour.
    pub open spec fn is_own(self) -> bool {
        self == HexaDirection::North || self == HexaDirection::NorthWest || self
            == HexaDirection::SouthWest
    }
}

/// A position by row and column.
#[derive(Debug, Clone, Copy, PartialEq, Eq, PartialOrd, Ord, Hash, Structural)]
pub struct HexaPosition {
    pub row: usize,
    pub col: usize,
}

impl From<Position2d> for HexaPosition {
    fn from(value: Position2d) -> (pos: Self) {
        HexaPosition { row: value.0, col: value.1 }
    }
}

impl vstd::std_specs::convert::FromSpecImpl<Position2d> for HexaPosition {
    open spec fn obeys_from_spec() -> bool {
        true
    }

    open spec fn from_spec(value: Position2d) -> Self {
        HexaPosition { row: value.0, col: value.1 }
    }
}

impl From<HexaPosition> for Position2d {
    fn from(value: HexaPosition) -> (pos: Self) {
        Position2d(value.row, value.col)
    }
}

impl vstd::std_specs::convert::FromSpecImpl<HexaPosition> for Position2d {
    open spec fn obeys_from_spec() -> bool {
        true
    }

    open spec fn from_spec(value: HexaPosition) -> Self {
        Position2d(value.row, value.col)
    }
}

impl HexaPosition {
    /// The same row and column as a plain position.
    pub open spec fn pos(self) -> Position2d {
        Position2d(self.row, self.col)
    }

    /// The position in a row and a column.
    pub fn new(row: usize, col: usize) -> (pos: Self)
        ensures
            pos == (HexaPosition { row, col }),
    {
        HexaPosition { row, col }
    }

    /// The position one step away in a direction, where the step stays
    /// within the non-negative numbers that a machine word holds. A step to
    /// the east or west changes the row where the column's offset asks for
    /// it.
    pub open spec fn step(self, dir: HexaDirection) -> Option<HexaPosition> {
        let even = self.col % 2 == 0;
        match dir {
            HexaDirection::North => if self.row > 0 {
                Some(HexaPosition { row: (self.row - 1) as usize, col: self.col })
            } else {
                None
            },
            HexaDirection::NorthEast => if self.col == usize::MAX {
                None
            } else if !even {
                Some(HexaPosition { row: self.row, col: (self.col + 1) as usize })
            } else if self.row > 0 {
                Some(HexaPosition { row: (self.row - 1) as usize, col: (self.col + 1) as usize })
            } else {
                None
            },
            HexaDirection::SouthEast => if self.col == usize::MAX {
                None
            } else if even {
                Some(HexaPosition { row: self.row, col: (self.col + 1) as usize })
            } else if self.row < usize::MAX {
                Some(HexaPosition { row: (self.row + 1) as usize, col: (self.col + 1) as usize })
            } else {
                None
            },
            HexaDirection::South => if self.row < usize::MAX {
                Some(HexaPosition { row: (self.row + 1) as usize, col: self.col })
            } else {
                None
            },
            HexaDirection::SouthWest => if self.col == 0 {
                None
            } else if even {
                Some(HexaPosition { row: self.row, col: (self.col - 1) as usize })
            } else if self.row < usize::MAX {
                Some(HexaPosition { row: (self.row + 1) as usize, col: (self.col - 1) as usize })
            } else {
                None
            },
            HexaDirection::NorthWest => if self.col == 0 {
                None
            } else if !even {
                Some(HexaPosition { row: self.row, col: (self.col - 1) as usize })
            } else if self.row > 0 {
                Some(HexaPosition { row: (self.row - 1) as usize, col: (self.col - 1) as usize })
            } else {
                None
            },
        }
    }

    /// The position one step away in a direction, if there is one.
    pub fn neighbor(&self, dir: HexaDirection) -> (next: Option<Self>)
        ensures
            next == self.step(dir),
    {
        let even = self.col % 2 == 0;
        match dir {
            HexaDirection::North => if self.row > 0 {
                Some(Self::new(self.row - 1, self.col))
            } else {
                None
            },
            HexaDirection::NorthEast => if self.col == usize::MAX {
                None
            } else if !even {
                Some(Self::new(self.row, self.col + 1))
            } else if self.row > 0 {
                Some(Self::new(self.row - 1, self.col + 1))
            } else {
                None
            },
            HexaDirection::SouthEast => if self.col == usize::MAX {
                None
            } else if even {
                Some(Self::new(self.row, self.col + 1))
            } else if self.row < usize::MAX {
                Some(Self::new(self.row + 1, self.col + 1))
            } else {
                None
            },
            HexaDirection::South => if self.row < usize::MAX {
                Some(Self::new(self.row + 1, self.col))
            } else {
                None
            },
            HexaDirection::SouthWest => if self.col == 0 {
                None
            } else if even {
                Some(Self::new(self.row, self.col - 1))
            } else if self.row < usize::MAX {
                Some(Self::new(self.row + 1, self.col - 1))
            } else {
                None
            },
            HexaDirection::NorthWest => if self.col == 0 {
                None
            } else if !even {
                Some(Self::new(self.row, self.col - 1))
            } else if self.row > 0 {
                Some(Self::new(self.row - 1, self.col - 1))
            } else {
                None
            },
        }
    }

    /// A step followed by the step in the opposite direction leads back.
    pub proof fn lemma_step_back(self, dir: HexaDirection)
        requires
            self.step(dir) is Some,
        ensures
            self.step(dir)->0.step(dir.opposite()) == Some(self),
            self.step(dir)->0 != self,
    {
    }

    /// Steps in different directions lead to different positions.
    pub proof fn lemma_step_apart(self, dir: HexaDirection, other: HexaDirection)
        requires
            self.step(dir) is Some,
            dir != other,
        ensures
            self.step(dir) != self.step(other),
    {
    }
}

/// What a cell of the hexagonal grid records: the passages to the north, the
/// north-west and the south-west. The other three are recorded by the
/// neighbours there.
#[derive(Debug, Clone, Copy)]
pub(crate) struct HexaCell {
    pub(crate) is_connected_to_north: bool,
    pub(crate) is_connected_to_northwest: bool,
    pub(crate) is_connected_to_southwest: bool,
}

impl HexaCell {
    /// Whether the cell records a passage in one of its own directions.
    pub(crate) open spec fn is_open(self, dir: HexaDirection) -> bool {
        match dir {
            HexaDirection::North => self.is_connected_to_north,
            HexaDirection::NorthWest => self.is_connected_to_northwest,
            HexaDirection::SouthWest => self.is_connected_to_southwest,
            _ => false,
        }
    }

    /// The cell with the passage in one of its own directions recorded.
    pub(crate) open spec fn opened(self, dir: HexaDirection) -> HexaCell {
        match dir {
            HexaDirection::North => HexaCell { is_connected_to_north: true, ..self },
            HexaDirection::NorthWest => HexaCell { is_connected_to_northwest: true, ..self },
            HexaDirection::SouthWest => HexaCell { is_connected_to_southwest: true, ..self },
            _ => self,
        }
    }
}

impl DefaultInRectGrid for HexaCell {
    closed spec fn blank_at(pos: Position2d) -> Self {
        HexaCell {
            is_connected_to_north: false,
            is_connected_to_northwest: false,
            is_connected_to_southwest: false,
        }
    }

    closed spec fn passages(&self) -> nat {
        (if self.is_connected_to_north {
            1nat
        } else {
            0nat
        }) + (if self.is_connected_to_northwest {
            1nat
        } else {
            0nat
        }) + (if self.is_connected_to_southwest {
            1nat
        } else {
            0nat
        })
    }

    proof fn lemma_blank(pos: Position2d) {
    }

    fn default_at(pos: &Position2d) -> (cell: Self) {
        HexaCell {
            is_connected_to_north: false,
            is_connected_to_northwest: false,
            is_connected_to_southwest: false,
        }
    }
}

/// A hexagonal grid, with or without a mask.
#[derive(Debug)]
pub struct HexaGrid<M: MaskType>(pub(crate) GeneralRectGrid<HexaCell>, pub(crate) PhantomData<M>);

impl<M: MaskType> HexaGrid<M> {
    /// The same position by row and column.
    pub open spec fn hp(pos: Position2d) -> HexaPosition {
        HexaPosition { row: pos.0, col: pos.1 }
    }

    /// Whether `pos` is a cell.
    pub open(crate) spec fn has(&self, pos: HexaPosition) -> bool {
        self.0.has(pos.pos())
    }

    /// Width and height.
    pub open(crate) spec fn dims(&self) -> (usize, usize) {
        self.0.dims()
    }

    /// The mask's flags, if there is a mask.
    pub open(crate) spec fn marks(&self) -> Option<Seq<bool>> {
        self.0.marks()
    }

    /// The number of passages that the cells record.
    pub open(crate) spec fn passages_n(&self) -> nat {
        self.0.passages()
    }

    /// The cell next to the cell `pos` in direction `dir`, if there is one.
    pub open(crate) spec fn neighbor_at(&self, pos: HexaPosition, dir: HexaDirection) -> Option<
        HexaPosition,
    > {
        if self.has(pos) {
            match pos.step(dir) {
                Some(next) => if self.has(next) {
                    Some(next)
                } else {
                    None
                },
                None => None,
            }
        } else {
            None
        }
    }

    /// The same as a plain position.
    pub open(crate) spec fn toward(&self, pos: Position2d, dir: HexaDirection) -> Option<
        Position2d,
    > {
        match self.neighbor_at(Self::hp(pos), dir) {
            Some(next) => Some(next.pos()),
            None => None,
        }
    }

    /// Whether there is a passage from the cell `pos` in direction `dir`.
    /// The cell itself records it for its own directions, the neighbour for
    /// the others.
    pub open(crate) spec fn open_toward(&self, pos: HexaPosition, dir: HexaDirection) -> bool {
        match self.neighbor_at(pos, dir) {
            None => false,
            Some(next) => if dir.is_own() {
                self.0.at(pos.pos()).is_open(dir)
            } else {
                self.0.at(next.pos()).is_open(dir.opposite())
            },
        }
    }

    /// Whether `b` is the neighbour of `a` in direction `dir`, with a
    /// passage between them.
    pub open(crate) spec fn linked_toward(
        &self,
        a: Position2d,
        b: Position2d,
        dir: HexaDirection,
    ) -> bool {
        self.neighbor_at(Self::hp(a), dir) == Some(Self::hp(b)) && self.open_toward(
            Self::hp(a),
            dir,
        )
    }

    /// Whether there is a passage between `a` and `b`.
    pub open(crate) spec fn linked(&self, a: Position2d, b: Position2d) -> bool {
        ||| self.linked_toward(a, b, HexaDirection::North)
        ||| self.linked_toward(a, b, HexaDirection::NorthEast)
        ||| self.linked_toward(a, b, HexaDirection::SouthEast)
        ||| self.linked_toward(a, b, HexaDirection::NorthWest)
        ||| self.linked_toward(a, b, HexaDirection::SouthWest)
        ||| self.linked_toward(a, b, HexaDirection::South)
    }

    /// The cell records fit the size, the mask is there where the kind of
    /// grid has one, and a passage is recorded only where there is a
    /// neighbour to lead to.
    pub open(crate) spec fn inv_records(&self) -> bool {
        &&& self.0.wf()
        &&& self.0.mask is Some <==> M::has_mask()
        &&& forall|pos: Position2d, dir: HexaDirection|
            self.0.has(pos) && #[trigger] self.0.at(pos).is_open(dir) ==> self.neighbor_at(
                Self::hp(pos),
                dir,
            ) is Some
    }

    /// The records are consistent, and the passages are as many as the
    /// records count: the relation holds two ordered pairs for each.
    pub open(crate) spec fn inv(&self) -> bool {
        &&& self.inv_records()
        &&& self.passages().finite()
        &&& self.passages().len() == 2 * self.passages_n()
    }

    /// The cells next to `pos`: north, north-east, south-east, north-west,
    /// south-west, south.
    pub open(crate) spec fn around(&self, pos: Position2d) -> Seq<Position2d> {
        seq_of(self.toward(pos, HexaDirection::North)) + seq_of(
            self.toward(pos, HexaDirection::NorthEast),
        ) + seq_of(self.toward(pos, HexaDirection::SouthEast)) + seq_of(
            self.toward(pos, HexaDirection::NorthWest),
        ) + seq_of(self.toward(pos, HexaDirection::SouthWest)) + seq_of(
            self.toward(pos, HexaDirection::South),
        )
    }

    /// The passages as pairs of positions, each in both directions.
    pub open(crate) spec fn passages(&self) -> Set<(Position2d, Position2d)> {
        Set::new(|pair: (Position2d, Position2d)| self.linked(pair.0, pair.1))
    }

    /// `b` is next to `a` exactly if it is the neighbour of `a` in one of the
    /// six directions.
    pub proof fn lemma_around(&self, a: Position2d, b: Position2d)
        ensures
            self.around(a).contains(b) <==> exists|dir: HexaDirection| #[trigger]
                self.toward(a, dir) == Some(b),
    {
        let l1 = seq_of(self.toward(a, HexaDirection::North));
        let l2 = l1 + seq_of(self.toward(a, HexaDirection::NorthEast));
        let l3 = l2 + seq_of(self.toward(a, HexaDirection::SouthEast));
        let l4 = l3 + seq_of(self.toward(a, HexaDirection::NorthWest));
        let l5 = l4 + seq_of(self.toward(a, HexaDirection::SouthWest));
        lemma_seq_of(Seq::empty(), self.toward(a, HexaDirection::North), b);
        lemma_seq_of(l1, self.toward(a, HexaDirection::NorthEast), b);
        lemma_seq_of(l2, self.toward(a, HexaDirection::SouthEast), b);
        lemma_seq_of(l3, self.toward(a, HexaDirection::NorthWest), b);
        lemma_seq_of(l4, self.toward(a, HexaDirection::SouthWest), b);
        lemma_seq_of(l5, self.toward(a, HexaDirection::South), b);
        if self.around(a).contains(b) {
            let dir = if self.toward(a, HexaDirection::North) == Some(b) {
                HexaDirection::North
            } else if self.toward(a, HexaDirection::NorthEast) == Some(b) {
                HexaDirection::NorthEast
            } else if self.toward(a, HexaDirection::SouthEast) == Some(b) {
                HexaDirection::SouthEast
            } else if self.toward(a, HexaDirection::NorthWest) == Some(b) {
                HexaDirection::NorthWest
            } else if self.toward(a, HexaDirection::SouthWest) == Some(b) {
                HexaDirection::SouthWest
            } else {
                HexaDirection::South
            };
            assert(self.toward(a, dir) == Some(b));
        }
    }

    /// The neighbour in a direction has the cell as its neighbour in the
    /// opposite direction, and the passage between them is the same from both
    /// sides.
    pub proof fn lemma_neighbor_back(&self, pos: HexaPosition, dir: HexaDirection)
        requires
            self.neighbor_at(pos, dir) is Some,
        ensures
            self.neighbor_at(self.neighbor_at(pos, dir)->0, dir.opposite()) == Some(pos),
            self.neighbor_at(pos, dir)->0 != pos,
            self.open_toward(self.neighbor_at(pos, dir)->0, dir.opposite()) == self.open_toward(
                pos,
                dir,
            ),
    {
        pos.lemma_step_back(dir);
    }

    /// Being next to each other is mutual, and holds of two different cells
    /// only.
    pub proof fn lemma_around_back(&self, a: Position2d, b: Position2d)
        requires
            self.around(a).contains(b),
        ensures
            self.has(Self::hp(a)),
            self.has(Self::hp(b)),
            a != b,
            self.around(b).contains(a),
    {
        self.lemma_around(a, b);
        self.lemma_around(b, a);
        let dir = choose|dir: HexaDirection| #[trigger] self.toward(a, dir) == Some(b);
        let from = Self::hp(a);
        let to = Self::hp(b);
        assert(to.pos() == b && from.pos() == a);
        self.lemma_neighbor_back(from, dir);
        assert(self.toward(b, dir.opposite()) == Some(a));
    }

    /// A passage runs between neighbours, and in both directions.
    pub proof fn lemma_linked_back(&self, a: Position2d, b: Position2d)
        requires
            self.linked(a, b),
        ensures
            self.around(a).contains(b),
            self.linked(b, a),
    {
        self.lemma_around(a, b);
        let from = Self::hp(a);
        let to = Self::hp(b);
        assert(to.pos() == b && from.pos() == a);
        let dir = if self.linked_toward(a, b, HexaDirection::North) {
            HexaDirection::North
        } else if self.linked_toward(a, b, HexaDirection::NorthEast) {
            HexaDirection::NorthEast
        } else if self.linked_toward(a, b, HexaDirection::SouthEast) {
            HexaDirection::SouthEast
        } else if self.linked_toward(a, b, HexaDirection::NorthWest) {
            HexaDirection::NorthWest
        } else if self.linked_toward(a, b, HexaDirection::SouthWest) {
            HexaDirection::SouthWest
        } else {
            HexaDirection::South
        };
        assert(self.linked_toward(a, b, dir));
        assert(self.toward(a, dir) == Some(b));
        self.lemma_neighbor_back(from, dir);
        assert(self.linked_toward(b, a, dir.opposite()));
    }

    /// Two cells are linked exactly if one is the neighbour of the other in
    /// some direction and the passage that way is open.
    pub proof fn lemma_linked(&self, a: Position2d, b: Position2d)
        ensures
            self.linked(a, b) <==> exists|dir: HexaDirection| #[trigger]
                self.linked_toward(a, b, dir),
    {
        if self.linked(a, b) {
            let dir = if self.linked_toward(a, b, HexaDirection::North) {
                HexaDirection::North
            } else if self.linked_toward(a, b, HexaDirection::NorthEast) {
                HexaDirection::NorthEast
            } else if self.linked_toward(a, b, HexaDirection::SouthEast) {
                HexaDirection::SouthEast
            } else if self.linked_toward(a, b, HexaDirection::NorthWest) {
                HexaDirection::NorthWest
            } else if self.linked_toward(a, b, HexaDirection::SouthWest) {
                HexaDirection::SouthWest
            } else {
                HexaDirection::South
            };
            assert(self.linked_toward(a, b, dir));
        }
    }

    /// Cells side by side in a row or column are next to each other in a
    /// hexagonal grid too.
    pub proof fn lemma_adjacency(&self)
        requires
            self.inv(),
        ensures
            rect_adjacency(self.dims().0 as nat, self.dims().1 as nat, self.marks()).subset_of(
                adjacency(self),
            ),
            self.cells() == rect_cells(self.dims().0 as nat, self.dims().1 as nat, self.marks()),
    {
        let flat = rect_adjacency(self.dims().0 as nat, self.dims().1 as nat, self.marks());
        assert forall|pair: (Position2d, Position2d)| flat.contains(pair) implies adjacency(
            self,
        ).contains(pair) by {
            self.lemma_around(pair.0, pair.1);
            let a = Self::hp(pair.0);
            let b = Self::hp(pair.1);
            assert(a.pos() == pair.0 && b.pos() == pair.1);
            let dir = if b.row + 1 == a.row {
                HexaDirection::North
            } else if a.row + 1 == b.row {
                HexaDirection::South
            } else if a.col + 1 == b.col {
                if a.col % 2 == 0 {
                    HexaDirection::SouthEast
                } else {
                    HexaDirection::NorthEast
                }
            } else {
                if a.col % 2 == 0 {
                    HexaDirection::SouthWest
                } else {
                    HexaDirection::NorthWest
                }
            };
            assert(self.toward(pair.0, dir) == Some(pair.1));
        }
    }

    /// The cell next to the cell `hexa_pos` in direction `dir`, if there is
    /// one.
    pub fn neighbor_pos(&self, hexa_pos: &HexaPosition, dir: HexaDirection) -> (next: Option<
        HexaPosition,
    >)
        requires
            self.inv(),
        ensures
            next == self.neighbor_at(*hexa_pos, dir),
    {
        let pos = Position2d(hexa_pos.row, hexa_pos.col);
        if self.0.is_cell(&pos) {
            match hexa_pos.neighbor(dir) {
                Some(next) => if self.0.is_cell(&Position2d(next.row, next.col)) {
                    Some(next)
                } else {
                    None
                },
                None => None,
            }
        } else {
            None
        }
    }

    /// Records the passage from the cell `owner` in one of its own
    /// directions, where it has a neighbour.
    fn open_own(&mut self, owner: &HexaPosition, dir: HexaDirection)
        requires
            old(self).inv(),
            dir.is_own(),
            old(self).neighbor_at(*owner, dir) is Some,
        ensures
            final(self).inv(),
            final(self).dims() == old(self).dims(),
            final(self).marks() == old(self).marks(),
            final(self).passages() == with_pair(
                old(self).passages(),
                owner.pos(),
                old(self).neighbor_at(*owner, dir)->0.pos(),
            ),
            final(self).passages_n() == old(self).passages_n() + if !old(self).open_toward(
                *owner,
                dir,
            ) {
                1nat
            } else {
                0nat
            },
    {
        let ghost before = *self;
        let at = Position2d(owner.row, owner.col);
        let mut cell = *self.0.cell(&at).unwrap();
        match dir {
            HexaDirection::North => {
                cell.is_connected_to_north = true;
            },
            HexaDirection::NorthWest => {
                cell.is_connected_to_northwest = true;
            },
            _ => {
                cell.is_connected_to_southwest = true;
            },
        }
        self.0.set_cell(&at, cell);
        proof {
            Self::lemma_opened(&before, &*self, *owner, dir);
            before.lemma_counted(*owner, dir);
        }
    }

    /// What adding the passage from `pos` in direction `dir` does to the
    /// number of ordered pairs.
    proof fn lemma_counted(&self, pos: HexaPosition, dir: HexaDirection)
        requires
            self.inv(),
            self.neighbor_at(pos, dir) is Some,
        ensures
            with_pair(self.passages(), pos.pos(), self.neighbor_at(pos, dir)->0.pos()).finite(),
            with_pair(self.passages(), pos.pos(), self.neighbor_at(pos, dir)->0.pos()).len()
                == self.passages().len() + if self.open_toward(pos, dir) {
                0nat
            } else {
                2nat
            },
    {
        let next = self.neighbor_at(pos, dir)->0;
        self.lemma_open_toward(pos, dir);
        self.lemma_neighbor_back(pos, dir);
        assert(crate::graph::symmetric(self.passages())) by {
            assert forall|a: Position2d, b: Position2d| #[trigger]
                self.passages().contains((a, b)) implies self.passages().contains((b, a)) by {
                self.lemma_linked_back(a, b);
            }
        }
        crate::graph::lemma_with_pair_len(self.passages(), pos.pos(), next.pos());
    }

    /// What the passages are after the record of `pos` has gained the
    /// passage in one of its own directions.
    proof fn lemma_opened(before: &Self, after: &Self, pos: HexaPosition, dir: HexaDirection)
        requires
            before.inv(),
            after.0.wf(),
            dir.is_own(),
            before.neighbor_at(pos, dir) is Some,
            after.dims() == before.dims(),
            after.marks() == before.marks(),
            after.0.at(pos.pos()) == before.0.at(pos.pos()).opened(dir),
            forall|x: Position2d|
                x.0 < before.0.height && x.1 < before.0.width && x != pos.pos()
                    ==> #[trigger] after.0.at(x) == before.0.at(x),
        ensures
            after.inv_records(),
            after.passages() == with_pair(
                before.passages(),
                pos.pos(),
                before.neighbor_at(pos, dir)->0.pos(),
            ),
    {
        let next = before.neighbor_at(pos, dir)->0;
        pos.lemma_step_back(dir);
        assert forall|x: HexaPosition, d: HexaDirection|
            after.neighbor_at(x, d) == before.neighbor_at(x, d) by {}
        assert forall|x: Position2d, d: HexaDirection|
            after.0.has(x) && #[trigger] after.0.at(x).is_open(d) implies after.neighbor_at(
            Self::hp(x),
            d,
        ) is Some by {
            assert(before.0.has(x));
            if x != pos.pos() || d != dir {
                assert(before.0.at(x).is_open(d));
            }
        }
        assert forall|a: Position2d, b: Position2d, d: HexaDirection|
            #[trigger] after.linked_toward(a, b, d) == (before.linked_toward(a, b, d) || (d == dir
                && a == pos.pos() && b == next.pos()) || (d == dir.opposite() && a == next.pos()
                && b == pos.pos())) by {
            let from = Self::hp(a);
            let to = Self::hp(b);
            assert(from.pos() == a && to.pos() == b);
            if before.neighbor_at(from, d) == Some(to) {
                from.lemma_step_back(d);
                if d.is_own() {
                    if from == pos && d != dir {
                        pos.lemma_step_apart(dir, d);
                    }
                } else {
                    if to == pos && d.opposite() != dir {
                        pos.lemma_step_apart(dir, d.opposite());
                    }
                }
            }
        }
        let grown = with_pair(before.passages(), pos.pos(), next.pos());
        assert forall|pair: (Position2d, Position2d)| after.passages().contains(pair)
            == grown.contains(pair) by {
            after.lemma_linked(pair.0, pair.1);
            before.lemma_linked(pair.0, pair.1);
            if after.linked(pair.0, pair.1) {
                let d = choose|d: HexaDirection| #[trigger]
                    after.linked_toward(pair.0, pair.1, d);
                assert(before.linked_toward(pair.0, pair.1, d) || pair == (pos.pos(), next.pos())
                    || pair == (next.pos(), pos.pos()));
            }
            if before.linked(pair.0, pair.1) {
                let d = choose|d: HexaDirection| #[trigger]
                    before.linked_toward(pair.0, pair.1, d);
                assert(after.linked_toward(pair.0, pair.1, d));
            }
            if pair == (pos.pos(), next.pos()) {
                assert(after.linked_toward(pair.0, pair.1, dir));
            }
            if pair == (next.pos(), pos.pos()) {
                assert(after.linked_toward(pair.0, pair.1, dir.opposite()));
            }
        }
        assert(after.passages() =~= grown);
    }

    /// Appends the neighbour of `pos` in direction `dir`, if there is one.
    fn push_toward(&self, pos: &Position2d, dir: HexaDirection, neighbors: &mut Vec<Position2d>)
        requires
            self.inv(),
        ensures
            final(neighbors)@ == old(neighbors)@ + seq_of(self.toward(*pos, dir)),
    {
        match self.neighbor_pos(&HexaPosition::new(pos.0, pos.1), dir) {
            Some(next) => {
                neighbors.push(Position2d(next.row, next.col));
                assert(neighbors@ =~= old(neighbors)@ + seq_of(self.toward(*pos, dir)));
            },
            None => {
                assert(neighbors@ =~= old(neighbors)@ + seq_of(self.toward(*pos, dir)));
            },
        }
    }

    /// A grid of fresh cells is valid and has no passage.
    proof fn lemma_fresh(&self)
        requires
            self.0.wf(),
            self.0.is_fresh(),
            self.0.mask is Some <==> M::has_mask(),
        ensures
            self.inv(),
            self.passages() == Set::<(Position2d, Position2d)>::empty(),
            self.passages_n() == 0,
    {
        self.0.lemma_fresh();
        assert forall|pos: Position2d, dir: HexaDirection|
            self.0.has(pos) implies !#[trigger] self.0.at(pos).is_open(dir) by {
            lemma_flat_index(
                pos.0 as int,
                pos.1 as int,
                self.0.width as int,
                self.0.height as int,
            );
        }
        assert forall|pair: (Position2d, Position2d)| !self.passages().contains(pair) by {
            self.lemma_linked(pair.0, pair.1);
            if self.linked(pair.0, pair.1) {
                let d = choose|d: HexaDirection| #[trigger]
                    self.linked_toward(pair.0, pair.1, d);
                let a = Self::hp(pair.0);
                let b = Self::hp(pair.1);
                assert(self.0.has(a.pos()) && self.0.has(b.pos()));
            }
        }
        assert(self.passages() =~= Set::<(Position2d, Position2d)>::empty());
    }
}

impl<M: MaskType> Grid2d for HexaGrid<M> {
    type Frame = (usize, usize, Option<Seq<bool>>);

    open(crate) spec fn valid(&self) -> bool {
        self.inv()
    }

    open(crate) spec fn frame(&self) -> (usize, usize, Option<Seq<bool>>) {
        (self.0.width, self.0.height, self.0.marks())
    }

    open(crate) spec fn cells(&self) -> Set<Position2d> {
        self.0.cell_set()
    }

    open(crate) spec fn neighbors_of(&self, pos: Position2d) -> Seq<Position2d> {
        self.around(pos)
    }

    open(crate) spec fn links(&self) -> Set<(Position2d, Position2d)> {
        self.passages()
    }

    open(crate) spec fn links_n(&self) -> nat {
        self.passages_n()
    }

    proof fn lemma_graph(&self) {
        lemma_rect_cells(self.0.width as nat, self.0.height as nat, self.0.marks());
        assert forall|a: Position2d, b: Position2d| #[trigger]
            self.neighbors_of(a).contains(b) implies self.cells().contains(a)
            && self.cells().contains(b) && a != b && self.neighbors_of(b).contains(a) by {
            self.lemma_around_back(a, b);
        }
        assert forall|a: Position2d, b: Position2d| #[trigger]
            self.links().contains((a, b)) implies self.neighbors_of(a).contains(b)
            && self.links().contains((b, a)) by {
            self.lemma_linked_back(a, b);
        }
    }

    proof fn lemma_frame(&self, other: &Self) {
    }

    fn cells_n(&self) -> (n: usize) {
        self.0.cells_n()
    }

    fn random_cell_pos(&self, rng: &mut RandomSource) -> (picked: Option<Position2d>) {
        self.0.random_cell_pos(rng)
    }

    fn all_cells_pos_set(&self) -> (all: PosSet) {
        self.0.all_cells_pos_set()
    }

    fn append_neighbors(&self, pos: &Position2d, neighbors: &mut Vec<Position2d>) {
        self.push_toward(pos, HexaDirection::North, neighbors);
        self.push_toward(pos, HexaDirection::NorthEast, neighbors);
        self.push_toward(pos, HexaDirection::SouthEast, neighbors);
        self.push_toward(pos, HexaDirection::NorthWest, neighbors);
        self.push_toward(pos, HexaDirection::SouthWest, neighbors);
        self.push_toward(pos, HexaDirection::South, neighbors);
        assert(neighbors@ =~= old(neighbors)@ + self.around(*pos));
    }

    fn connect_to(&mut self, from: &Position2d, to: &Position2d) -> (connected: bool) {
        let hex_from = HexaPosition::new(from.0, from.1);
        let hex_to = HexaPosition::new(to.0, to.1);
        match self.find_dir(&hex_from, &hex_to) {
            None => false,
            Some(dir) => {
                self.open_pair(&hex_from, &hex_to, dir);
                true
            },
        }
    }
}

impl<M: MaskType> HexaGrid<M> {
    /// The direction in which `to` is the neighbour of `from`, if it is a
    /// neighbour.
    fn find_dir(&self, from: &HexaPosition, to: &HexaPosition) -> (found: Option<HexaDirection>)
        requires
            self.inv(),
        ensures
            found is Some ==> self.neighbor_at(*from, found->0) == Some(*to),
            found is Some <==> self.around(from.pos()).contains(to.pos()),
    {
        let dirs = HexaDirection::all_dirs();
        let mut i: usize = 0;
        while i < 6
            invariant
                i <= 6,
                dirs@ == seq![
                    HexaDirection::North,
                    HexaDirection::NorthEast,
                    HexaDirection::SouthEast,
                    HexaDirection::NorthWest,
                    HexaDirection::SouthWest,
                    HexaDirection::South,
                ],
                self.inv(),
                forall|j: int|
                    0 <= j < i ==> self.neighbor_at(*from, #[trigger] dirs@[j]) != Some(*to),
            decreases 6 - i,
        {
            let dir = dirs[i];
            let here = match self.neighbor_pos(from, dir) {
                Some(next) => next.row == to.row && next.col == to.col,
                None => false,
            };
            if here {
                proof {
                    self.lemma_around(from.pos(), to.pos());
                    assert(Self::hp(from.pos()) == *from);
                    assert(self.toward(from.pos(), dir) == Some(to.pos()));
                }
                return Some(dir);
            }
            i += 1;
        }
        proof {
            self.lemma_around(from.pos(), to.pos());
            assert(Self::hp(from.pos()) == *from);
            if self.around(from.pos()).contains(to.pos()) {
                let d = choose|d: HexaDirection| #[trigger]
                    self.toward(from.pos(), d) == Some(to.pos());
                assert(self.neighbor_at(*from, d)->0.pos() == to.pos());
                assert(self.neighbor_at(*from, d) == Some(*to));
                assert(d == dirs@[0] || d == dirs@[1] || d == dirs@[2] || d == dirs@[3] || d
                    == dirs@[4] || d == dirs@[5]);
            }
        }
        None
    }

    /// Opens the passage between `from` and its neighbour `to` in
    /// direction `dir`, in the record of the one that keeps it.
    fn open_pair(&mut self, from: &HexaPosition, to: &HexaPosition, dir: HexaDirection)
        requires
            old(self).inv(),
            old(self).neighbor_at(*from, dir) == Some(*to),
        ensures
            final(self).inv(),
            final(self).dims() == old(self).dims(),
            final(self).marks() == old(self).marks(),
            final(self).passages() == with_pair(old(self).passages(), from.pos(), to.pos()),
            final(self).passages_n() == old(self).passages_n() + if !old(self).passages().contains(
                (from.pos(), to.pos()),
            ) {
                1nat
            } else {
                0nat
            },
    {
        proof {
            self.lemma_neighbor_back(*from, dir);
            self.lemma_open_toward(*from, dir);
            self.lemma_open_toward(*to, dir.opposite());
            self.lemma_linked_sym(from.pos(), to.pos());
            assert(with_pair(self.passages(), to.pos(), from.pos()) =~= with_pair(
                self.passages(),
                from.pos(),
                to.pos(),
            ));
        }
        match dir {
            HexaDirection::North => self.open_own(from, HexaDirection::North),
            HexaDirection::NorthEast => self.open_own(to, HexaDirection::SouthWest),
            HexaDirection::SouthEast => self.open_own(to, HexaDirection::NorthWest),
            HexaDirection::South => self.open_own(to, HexaDirection::North),
            HexaDirection::SouthWest => self.open_own(from, HexaDirection::SouthWest),
            HexaDirection::NorthWest => self.open_own(from, HexaDirection::NorthWest),
        }
    }

    /// A passage between two cells is one in both directions.
    proof fn lemma_linked_sym(&self, a: Position2d, b: Position2d)
        ensures
            self.linked(a, b) == self.linked(b, a),
    {
        if self.linked(a, b) {
            self.lemma_linked_back(a, b);
        }
        if self.linked(b, a) {
            self.lemma_linked_back(b, a);
        }
    }
}

impl LayerGrid for HexaGrid<NoMask> {
    open(crate) spec fn layer_count(&self) -> nat {
        self.0.height as nat
    }

    open(crate) spec fn layer_size(&self, layer: nat) -> nat {
        self.0.width as nat
    }

    open(crate) spec fn above(&self, pos: Position2d) -> Seq<Position2d> {
        seq_of(self.toward(pos, HexaDirection::North))
    }

    open(crate) spec fn below(&self, pos: Position2d) -> Seq<Position2d> {
        seq_of(self.toward(pos, HexaDirection::South))
    }

    proof fn lemma_layers(&self) {
        assert forall|p: Position2d|
            self.cells().contains(p) && p.1 > 0 implies #[trigger] self.neighbors_of(p).contains(
            Position2d(p.0, (p.1 - 1) as usize),
        ) by {
            let q = Position2d(p.0, (p.1 - 1) as usize);
            self.lemma_around(p, q);
            if p.1 % 2 == 0 {
                assert(self.toward(p, HexaDirection::SouthWest) == Some(q));
            } else {
                assert(self.toward(p, HexaDirection::NorthWest) == Some(q));
            }
        }
        assert forall|p: Position2d, q: Position2d| #[trigger]
            self.below(p).contains(q) implies self.neighbors_of(p).contains(q) && q.0 == p.0 + 1 by {
            self.lemma_around(p, q);
            lemma_seq_of(Seq::empty(), self.toward(p, HexaDirection::South), q);
            assert(self.toward(p, HexaDirection::South) == Some(q));
        }
        assert forall|p: Position2d|
            self.cells().contains(p) && p.0 + 1 < self.layer_count() implies (
        #[trigger] self.below(p)).len() > 0 by {
            assert(self.0.has(Position2d((p.0 + 1) as usize, p.1)));
        }
        assert forall|p: Position2d, r: Position2d, q: Position2d|
            #[trigger] self.below(p).contains(q) && #[trigger] self.below(r).contains(q) implies p
            == r by {
            lemma_seq_of(Seq::empty(), self.toward(p, HexaDirection::South), q);
            lemma_seq_of(Seq::empty(), self.toward(r, HexaDirection::South), q);
        }
        assert forall|p: Position2d, q: Position2d| #[trigger]
            self.above(p).contains(q) <==> self.below(q).contains(p) by {
            lemma_seq_of(Seq::empty(), self.toward(p, HexaDirection::North), q);
            lemma_seq_of(Seq::empty(), self.toward(q, HexaDirection::South), p);
        }
    }

    proof fn lemma_layer_frame(&self, other: &Self) {
    }

    fn layers_n(&self) -> (n: usize) {
        self.0.height
    }

    fn cells_n_at(&self, _layer_ind: usize) -> (n: usize) {
        self.0.width
    }

    fn append_neighbors_upper_layer(&self, pos: &Position2d, neighbors: &mut Vec<Position2d>) {
        self.push_toward(pos, HexaDirection::North, neighbors);
    }

    fn append_neighbors_lower_layer(&self, pos: &Position2d, neighbors: &mut Vec<Position2d>) {
        self.push_toward(pos, HexaDirection::South, neighbors);
    }
}

impl HexaGrid<NoMask> {
    /// A grid of `width` by `height` cells without passages.
    pub fn new(width: usize, height: usize) -> (grid: Self)
        requires
            width * height <= usize::MAX,
        ensures
            grid.valid(),
            grid.dims() == (width, height),
            grid.marks() is None,
            grid.links() == Set::<(Position2d, Position2d)>::empty(),
            grid.links_n() == 0,
            is_connected(&grid),
    {
        let grid = HexaGrid::<NoMask>(GeneralRectGrid::<HexaCell>::new(width, height), PhantomData);
        proof {
            grid.lemma_fresh();
            grid.lemma_adjacency();
            lemma_rect_grid_connected(&grid, width as nat, height as nat);
        }
        grid
    }
}

impl HexaGrid<WithMask> {
    /// A grid without passages whose cells are the positions that the mask
    /// marks. Whether the cells hang together is not looked at here:
    /// `try_new` does that.
    pub fn new(mask: &RectMask) -> (grid: Self)
        requires
            mask.wf(),
        ensures
            grid.valid(),
            grid.dims() == mask.dims(),
            grid.marks() == Some(mask.marks()),
            grid.links() == Set::<(Position2d, Position2d)>::empty(),
            grid.links_n() == 0,
            mask.connected() ==> is_connected(&grid),
    {
        let grid = HexaGrid::<WithMask>(GeneralRectGrid::<HexaCell>::with_mask(mask), PhantomData);
        proof {
            grid.lemma_fresh();
            grid.lemma_adjacency();
            if mask.connected() {
                let flat = rect_adjacency(
                    grid.dims().0 as nat,
                    grid.dims().1 as nat,
                    grid.marks(),
                );
                assert forall|a: Position2d, b: Position2d|
                    grid.cells().contains(a) && grid.cells().contains(
                        b,
                    ) implies #[trigger] crate::graph::joined(adjacency(&grid), a, b) by {
                    assert(crate::graph::joined(flat, a, b));
                    crate::graph::lemma_joined_grows(flat, adjacency(&grid), a, b);
                }
            }
        }
        grid
    }

    /// A grid without passages whose cells are the positions that the mask
    /// marks, where every cell can be reached from every other from hexagon to hexagon;
    /// refused otherwise.
    pub fn try_new(mask: &RectMask) -> (made: Result<Self, Error>)
        requires
            mask.wf(),
        ensures
            made is Ok <==> frame_is_connected::<HexaGrid<WithMask>>(
                (mask.dims().0, mask.dims().1, Some(mask.marks())),
            ),
            match made {
                Ok(grid) => {
                    &&& grid.valid()
                    &&& grid.dims() == mask.dims()
                    &&& grid.marks() == Some(mask.marks())
                    &&& grid.links() == Set::<(Position2d, Position2d)>::empty()
                    &&& grid.links_n() == 0
                    &&& is_connected(&grid)
                },
                Err(err) => err == Error::IsolatedAreaInRectMask,
            },
    {
        let grid = Self::new(mask);
        proof {
            lemma_frame_connected(&grid);
        }
        if check_connected(&grid) {
            Ok(grid)
        } else {
            Err(Error::IsolatedAreaInRectMask)
        }
    }
}

/// A finished hexagonal maze.
#[derive(Debug)]
pub enum HexaMaze {
    NoMask(HexaGrid<NoMask>),
    WithMask(HexaGrid<WithMask>),
}

impl HexaMaze {
    /// The maze's grid is valid.
    pub open spec fn valid(&self) -> bool {
        match self {
            HexaMaze::NoMask(grid) => grid.valid(),
            HexaMaze::WithMask(grid) => grid.valid(),
        }
    }

    /// Width and height.
    pub open spec fn dims(&self) -> (usize, usize) {
        match self {
            HexaMaze::NoMask(grid) => grid.dims(),
            HexaMaze::WithMask(grid) => grid.dims(),
        }
    }

    /// The cells.
    pub open spec fn cells(&self) -> Set<Position2d> {
        match self {
            HexaMaze::NoMask(grid) => grid.cells(),
            HexaMaze::WithMask(grid) => grid.cells(),
        }
    }

    /// The passages, each as a pair of positions in both directions.
    pub open spec fn links(&self) -> Set<(Position2d, Position2d)> {
        match self {
            HexaMaze::NoMask(grid) => grid.links(),
            HexaMaze::WithMask(grid) => grid.links(),
        }
    }

    /// The number of passages.
    pub open spec fn links_n(&self) -> nat {
        match self {
            HexaMaze::NoMask(grid) => grid.links_n(),
            HexaMaze::WithMask(grid) => grid.links_n(),
        }
    }

    /// The position one step from `pos` in direction `dir`, where both are
    /// cells.
    pub open spec fn neighbor_at(&self, pos: HexaPosition, dir: HexaDirection) -> Option<
        HexaPosition,
    > {
        match self {
            HexaMaze::NoMask(grid) => grid.neighbor_at(pos, dir),
            HexaMaze::WithMask(grid) => grid.neighbor_at(pos, dir),
        }
    }

    /// Whether a wall stands on the side `dir` of the position `pos`: on
    /// the side of a cell where no passage leads that way, and on the side
    /// of a position that is no cell where a cell lies that way.
    pub open spec fn wall_at(&self, pos: HexaPosition, dir: HexaDirection) -> bool {
        if self.cells().contains(pos.pos()) {
            match self.neighbor_at(pos, dir) {
                Some(next) => !self.links().contains((pos.pos(), next.pos())),
                None => true,
            }
        } else {
            match pos.step(dir) {
                Some(next) => self.cells().contains(next.pos()),
                None => false,
            }
        }
    }

    /// Whether a wall stands on the side `dir` of the position `pos`.
    pub fn has_wall(&self, pos: &HexaPosition, dir: HexaDirection) -> (wall: bool)
        requires
            self.valid(),
        ensures
            wall == self.wall_at(*pos, dir),
    {
        if self.is_cell(pos) {
            !self.is_connected_to(pos, dir)
        } else {
            match pos.neighbor(dir) {
                Some(neighbor) => self.is_cell(&neighbor),
                None => false,
            }
        }
    }

    /// Width and height.
    pub fn size(&self) -> (dims: (usize, usize))
        ensures
            dims == self.dims(),
    {
        match self {
            HexaMaze::NoMask(hexa_grid) => hexa_grid.0.size(),
            HexaMaze::WithMask(hexa_grid) => hexa_grid.0.size(),
        }
    }

    /// Whether `pos` is a cell.
    pub fn is_cell(&self, pos: &HexaPosition) -> (found: bool)
        requires
            self.valid(),
        ensures
            found == self.cells().contains(pos.pos()),
    {
        match self {
            HexaMaze::NoMask(hexa_grid) => hexa_grid.0.is_cell(&Position2d(pos.row, pos.col)),
            HexaMaze::WithMask(hexa_grid) => hexa_grid.0.is_cell(&Position2d(pos.row, pos.col)),
        }
    }

    /// Whether there is a passage from the cell `hexa_pos` in direction
    /// `dir`, whichever of the two cells records it.
    pub fn is_connected_to(&self, hexa_pos: &HexaPosition, dir: HexaDirection) -> (open: bool)
        requires
            self.valid(),
        ensures
            open == match self.neighbor_at(*hexa_pos, dir) {
                Some(next) => self.links().contains((hexa_pos.pos(), next.pos())),
                None => false,
            },
    {
        match self {
            HexaMaze::NoMask(hexa_grid) => {
                proof {
                    hexa_grid.lemma_open_toward(*hexa_pos, dir);
                }
                hexa_grid.is_open_toward(hexa_pos, dir)
            },
            HexaMaze::WithMask(hexa_grid) => {
                proof {
                    hexa_grid.lemma_open_toward(*hexa_pos, dir);
                }
                hexa_grid.is_open_toward(hexa_pos, dir)
            },
        }
    }
}

impl<M: MaskType> HexaGrid<M> {
    /// A passage leads from a cell in a direction exactly if the cell and its
    /// neighbour there are linked.
    pub proof fn lemma_open_toward(&self, pos: HexaPosition, dir: HexaDirection)
        requires
            self.inv(),
        ensures
            self.open_toward(pos, dir) == match self.neighbor_at(pos, dir) {
                Some(next) => self.links().contains((pos.pos(), next.pos())),
                None => false,
            },
    {
        if self.neighbor_at(pos, dir) is Some {
            let next = self.neighbor_at(pos, dir)->0;
            self.lemma_linked(pos.pos(), next.pos());
            assert(Self::hp(pos.pos()) == pos && Self::hp(next.pos()) == next);
            if self.open_toward(pos, dir) {
                assert(self.linked_toward(pos.pos(), next.pos(), dir));
            }
            if self.linked(pos.pos(), next.pos()) {
                let d = choose|d: HexaDirection| #[trigger]
                    self.linked_toward(pos.pos(), next.pos(), d);
                if d != dir {
                    pos.lemma_step_apart(dir, d);
                }
            }
        }
    }

    /// Whether there is a passage from the cell `hexa_pos` in direction
    /// `dir`: read from the cell for its own directions, from the neighbour
    /// for the others.
    pub(crate) fn is_open_toward(&self, hexa_pos: &HexaPosition, dir: HexaDirection) -> (open:
        bool)
        requires
            self.inv(),
        ensures
            open == self.open_toward(*hexa_pos, dir),
    {
        let pos = Position2d(hexa_pos.row, hexa_pos.col);
        match self.0.cell(&pos) {
            None => false,
            Some(cell) => match dir {
                HexaDirection::North => {
                    assert(cell.is_open(dir) ==> self.neighbor_at(*hexa_pos, dir) is Some);
                    cell.is_connected_to_north
                },
                HexaDirection::SouthWest => {
                    assert(cell.is_open(dir) ==> self.neighbor_at(*hexa_pos, dir) is Some);
                    cell.is_connected_to_southwest
                },
                HexaDirection::NorthWest => {
                    assert(cell.is_open(dir) ==> self.neighbor_at(*hexa_pos, dir) is Some);
                    cell.is_connected_to_northwest
                },
                indirect_dir => match hexa_pos.neighbor(indirect_dir) {
                    None => false,
                    Some(neighbor) => match self.0.cell(&Position2d(neighbor.row, neighbor.col)) {
                        None => false,
                        Some(cell) => match indirect_dir {
                            HexaDirection::NorthEast => cell.is_connected_to_southwest,
                            HexaDirection::SouthEast => cell.is_connected_to_northwest,
                            _ => cell.is_connected_to_north,
                        },
                    },
                },
            },
        }
    }
}

} // verus!
