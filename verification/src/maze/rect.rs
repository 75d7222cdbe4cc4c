//! The rectangular topology: four neighbours per cell, by row and column.

use crate::graph::with_pair;
use crate::maze::{
    adjacency, is_connected, lemma_flat_index, lemma_rect_cells, lemma_rect_grid_connected,
    lemma_seq_of, mask_connected, rect_adjacency, rect_cells, rect_count, rect_has, rect_pos_at,
    seq_of, DefaultInRectGrid, GeneralRectGrid, Grid2d, LayerGrid, MaskType, NoMask, Position2d,
    WithMask,
};
use crate::pos_set::PosSet;
use crate::random::RandomSource;
use std::marker::PhantomData;
use vstd::prelude::*;

verus! {

/// The four directions of a rectangular grid.
#[derive(Debug, Clone, Copy, PartialEq, Eq, Hash, Structural)]
pub enum RectDirection {
    North,
    South,
    East,
    West,
}

impl RectDirection {
    /// The four directions, in the order in which neighbours are listed.
    pub fn all_dirs() -> (dirs: [RectDirection; 4])
        ensures
            dirs@ == seq![
                RectDirection::North,
                RectDirection::East,
                RectDirection::West,
                RectDirection::South,
            ],
    {
        let dirs = [
            RectDirection::North,
            RectDirection::East,
            RectDirection::West,
            RectDirection::South,
        ];
        assert(dirs@ =~= seq![
            RectDirection::North,
            RectDirection::East,
            RectDirection::West,
            RectDirection::South,
        ]);
        dirs
    }

    /// The opposite direction.
    pub open spec fn opposite(self) -> RectDirection {
        match self {
            RectDirection::North => RectDirection::South,
            RectDirection::South => RectDirection::North,
            RectDirection::East => RectDirection::West,
            RectDirection::West => RectDirection::East,
        }
    }

    /// The opposite direction.
    pub fn reverse(&self) -> (back: Self)
        ensures
            back == self.opposite(),
    {
        match self {
            RectDirection::North => RectDirection::South,
            RectDirection::South => RectDirection::North,
            RectDirection::East => RectDirection::West,
            RectDirection::West => RectDirection::East,
        }
    }
}

/// A position by row and column.
#[derive(Debug, Clone, Copy, PartialEq, Eq, PartialOrd, Ord, Hash, Structural)]
pub struct RectPosition {
    pub row: usize,
    pub col: usize,
}

impl From<RectPosition> for Position2d {
    fn from(value: RectPosition) -> (pos: Self) {
        Position2d(value.row, value.col)
    }
}

impl vstd::std_specs::convert::FromSpecImpl<RectPosition> for Position2d {
    open spec fn obeys_from_spec() -> bool {
        true
    }

    open spec fn from_spec(value: RectPosition) -> Self {
        Position2d(value.row, value.col)
    }
}

impl From<Position2d> for RectPosition {
    fn from(value: Position2d) -> (pos: Self) {
        RectPosition { row: value.0, col: value.1 }
    }
}

impl vstd::std_specs::convert::FromSpecImpl<Position2d> for RectPosition {
    open spec fn obeys_from_spec() -> bool {
        true
    }

    open spec fn from_spec(value: Position2d) -> Self {
        RectPosition { row: value.0, col: value.1 }
    }
}

impl RectPosition {
    /// The same row and column as a plain position.
    pub open spec fn pos(self) -> Position2d {
        Position2d(self.row, self.col)
    }

    /// The position in a row and a column.
    pub fn new(row: usize, col: usize) -> (pos: Self)
        ensures
            pos == (RectPosition { row, col }),
    {
        RectPosition { row, col }
    }

    /// A position drawn at random from a rectangle of the given size, which
    /// holds at least one position: first the row, then the column.
    pub fn random(rng: &mut RandomSource, width: usize, height: usize) -> (pos: Self)
        requires
            width > 0,
            height > 0,
        ensures
            pos.row < height,
            pos.col < width,
    {
        let row = rng.below(height);
        let col = rng.below(width);
        RectPosition { row, col }
    }

    /// The position one step away in a direction, where the step stays within
    /// the non-negative numbers that a machine word holds.
    pub open spec fn step(self, dir: RectDirection) -> Option<RectPosition> {
        match dir {
            RectDirection::North => if self.row > 0 {
                Some(RectPosition { row: (self.row - 1) as usize, col: self.col })
            } else {
                None
            },
            RectDirection::South => if self.row < usize::MAX {
                Some(RectPosition { row: (self.row + 1) as usize, col: self.col })
            } else {
                None
            },
            RectDirection::East => if self.col < usize::MAX {
                Some(RectPosition { row: self.row, col: (self.col + 1) as usize })
            } else {
                None
            },
            RectDirection::West => if self.col > 0 {
                Some(RectPosition { row: self.row, col: (self.col - 1) as usize })
            } else {
                None
            },
        }
    }

    /// The position one step away in a direction, if there is one.
    pub fn neighbor(&self, dir: RectDirection) -> (next: Option<Self>)
        ensures
            next == self.step(dir),
    {
        match dir {
            RectDirection::North => if self.row > 0 {
                Some(RectPosition::new(self.row - 1, self.col))
            } else {
                None
            },
            RectDirection::South => if self.row < usize::MAX {
                Some(RectPosition::new(self.row + 1, self.col))
            } else {
                None
            },
            RectDirection::East => if self.col < usize::MAX {
                Some(RectPosition::new(self.row, self.col + 1))
            } else {
                None
            },
            RectDirection::West => if self.col > 0 {
                Some(RectPosition::new(self.row, self.col - 1))
            } else {
                None
            },
        }
    }

    /// The place of the position in row-major order, for rows of the given
    /// width.
    pub fn flat_ind(&self, row_width: usize) -> (ind: usize)
        requires
            self.col < row_width,
            self.row * row_width + self.col <= usize::MAX,
        ensures
            ind == self.row * row_width + self.col,
    {
        assert(self.row * row_width <= self.row * row_width + self.col) by (nonlinear_arith);
        self.row * row_width + self.col
    }
}

/// Why a mask was refused.
#[derive(Debug, Clone, Copy, PartialEq, Eq, Structural)]
pub enum Error {
    /// A row of a text mask is not as wide as the first row.
    InconsistentRectMaskRow { this_width: usize, expectd_width: usize },
    /// Some cell of the mask cannot be reached from the others.
    IsolatedAreaInRectMask,
}

/// Which positions of a `width` by `height` rectangle are cells.
#[derive(Debug, PartialEq, Eq, PartialOrd, Ord, Hash)]
pub struct RectMask {
    pub(crate) width: usize,
    pub(crate) height: usize,
    pub(crate) flags: Vec<bool>,
}

impl Clone for RectMask {
    fn clone(&self) -> (copy: Self)
        ensures
            copy.dims() == self.dims(),
            copy.marks() == self.marks(),
    {
        let flags = self.flags.clone();
        assert(flags@ =~= self.flags@);
        RectMask { width: self.width, height: self.height, flags }
    }
}

/// Whether a character of a mask's text stands for a cell: every one but
/// `X` and `x`.
pub open spec fn marks_cell(mark: char) -> bool {
    mark != 'X' && mark != 'x'
}

/// Whether a pixel of a mask's image stands for a cell: every one but an
/// opaque black one.
pub open spec fn pixel_marks_cell(red: u8, green: u8, blue: u8, alpha: u8) -> bool {
    !(red == 0 && green == 0 && blue == 0 && alpha == 0xff)
}

/// The width of a mask's text: that of its first row.
pub open spec fn text_width(rows: Seq<Vec<char>>) -> nat {
    if rows.len() > 0 {
        rows[0]@.len()
    } else {
        0
    }
}

/// Whether the rows before `upto` are all as wide as the first.
pub open spec fn rows_even(rows: Seq<Vec<char>>, upto: int) -> bool {
    forall|r: int| 0 <= r < upto ==> (#[trigger] rows[r])@.len() == text_width(rows)
}

/// The flags that a text of even rows draws, row by row.
pub open spec fn text_marks(rows: Seq<Vec<char>>) -> Seq<bool> {
    Seq::new(
        rows.len() * text_width(rows),
        |k: int| marks_cell(rows[k / (text_width(rows) as int)]@[k % (text_width(rows) as int)]),
    )
}

impl RectMask {
    /// There is one flag for each position.
    pub open(crate) spec fn wf(&self) -> bool {
        &&& self.flags@.len() == self.width * self.height
        &&& self.width * self.height <= usize::MAX
    }

    /// Width and height.
    pub open(crate) spec fn dims(&self) -> (usize, usize) {
        (self.width, self.height)
    }

    /// One flag per position, row by row: whether the position is a cell.
    pub open(crate) spec fn marks(&self) -> Seq<bool> {
        self.flags@
    }

    /// Whether the mask marks `pos` as a cell.
    pub open(crate) spec fn has(&self, pos: RectPosition) -> bool {
        rect_has(self.width as nat, self.height as nat, Some(self.flags@), pos.pos())
    }

    /// The positions that the mask marks as cells.
    pub open(crate) spec fn cells(&self) -> Set<Position2d> {
        rect_cells(self.width as nat, self.height as nat, Some(self.flags@))
    }

    /// Every marked position can be reached from every other by steps
    /// along rows and columns over marked positions.
    pub open(crate) spec fn connected(&self) -> bool {
        mask_connected(self.width as nat, self.height as nat, self.flags@)
    }

    /// A mask of the given size with the given flags, one for each
    /// position, row by row; refused where some marked position cannot be
    /// reached from the others.
    pub fn try_from_flags(width: usize, height: usize, flags: Vec<bool>) -> (made: Result<
        Self,
        Error,
    >)
        requires
            flags@.len() == width * height,
        ensures
            match made {
                Ok(mask) => mask.wf() && mask.dims() == (width, height) && mask.marks() == flags@
                    && mask.connected(),
                Err(err) => err == Error::IsolatedAreaInRectMask && !mask_connected(
                    width as nat,
                    height as nat,
                    flags@,
                ),
            },
    {
        assert(flags@.len() == flags.len());
        let mask = RectMask { width, height, flags };
        match mask.check_isolation() {
            Ok(()) => Ok(mask),
            Err(err) => Err(err),
        }
    }

    /// Whether a pixel of the given colour stands for a cell in a mask's
    /// image.
    pub fn is_cell_pixel(red: u8, green: u8, blue: u8, alpha: u8) -> (marked: bool)
        ensures
            marked == pixel_marks_cell(red, green, blue, alpha),
    {
        !(red == 0 && green == 0 && blue == 0 && alpha == 0xff)
    }

    /// The mask that a text draws, one row of characters for each row of
    /// positions: `X` or `x` for a position that is no cell, any other
    /// character for a cell. The text is refused at the first row that is
    /// not as wide as the first, and where all rows are even but some cell
    /// cannot be reached from the others.
    pub fn try_from_text(rows: &Vec<Vec<char>>) -> (made: Result<Self, Error>)
        requires
            rows@.len() * text_width(rows@) <= usize::MAX,
        ensures
            match made {
                Ok(mask) => {
                    &&& rows_even(rows@, rows@.len() as int)
                    &&& mask.wf()
                    &&& mask.dims() == (text_width(rows@) as usize, rows@.len() as usize)
                    &&& mask.marks() == text_marks(rows@)
                    &&& mask.connected()
                },
                Err(Error::InconsistentRectMaskRow { this_width, expectd_width }) => {
                    &&& expectd_width == text_width(rows@)
                    &&& this_width != expectd_width
                    &&& exists|r: int|
                        0 <= r < rows@.len() && rows_even(rows@, r) && (#[trigger] rows@[r])@.len()
                            == this_width
                },
                Err(Error::IsolatedAreaInRectMask) => {
                    &&& rows_even(rows@, rows@.len() as int)
                    &&& !mask_connected(text_width(rows@), rows@.len(), text_marks(rows@))
                },
            },
    {
        let height = rows.len();
        let width = if height > 0 {
            rows[0].len()
        } else {
            0
        };
        let mut flags: Vec<bool> = Vec::new();
        let mut r: usize = 0;
        while r < height
            invariant
                r <= height,
                height == rows@.len(),
                width == text_width(rows@),
                height * width <= usize::MAX,
                flags@.len() == r * width,
                rows_even(rows@, r as int),
                forall|k: int|
                    0 <= k < flags@.len() ==> #[trigger] flags@[k] == marks_cell(
                        rows@[k / (width as int)]@[k % (width as int)],
                    ),
            decreases height - r,
        {
            let this_width = rows[r].len();
            if this_width != width {
                return Err(Error::InconsistentRectMaskRow { this_width, expectd_width: width });
            }
            let mut c: usize = 0;
            while c < width
                invariant
                    r < height,
                    c <= width,
                    height == rows@.len(),
                    rows@[r as int]@.len() == width,
                    height * width <= usize::MAX,
                    flags@.len() == r * width + c,
                    forall|k: int|
                        0 <= k < flags@.len() ==> #[trigger] flags@[k] == marks_cell(
                            rows@[k / (width as int)]@[k % (width as int)],
                        ),
                decreases width - c,
            {
                let mark = rows[r][c];
                proof {
                    lemma_flat_index(r as int, c as int, width as int, height as int);
                }
                flags.push(mark != 'X' && mark != 'x');
                c += 1;
            }
            proof {
                assert((r + 1) * width == r * width + width) by (nonlinear_arith);
            }
            r += 1;
        }
        proof {
            assert(width * height == height * width) by (nonlinear_arith);
            assert(flags@ =~= text_marks(rows@));
        }
        let mask = RectMask { width, height, flags };
        match mask.check_isolation() {
            Ok(()) => Ok(mask),
            Err(err) => Err(err),
        }
    }

    /// Whether every marked position can be reached from every other:
    /// checked by flooding the grid that the mask cuts out.
    pub fn check_isolation(&self) -> (checked: Result<(), Error>)
        requires
            self.wf(),
        ensures
            checked is Ok <==> self.connected(),
            checked is Err ==> checked == Err::<(), Error>(Error::IsolatedAreaInRectMask),
    {
        let grid = RectGrid::<WithMask>::new(self);
        proof {
            grid.lemma_adjacency();
        }
        if crate::reach::check_connected(&grid) {
            Ok(())
        } else {
            Err(Error::IsolatedAreaInRectMask)
        }
    }

    /// A mask of the given size that marks no position.
    pub fn new(width: usize, height: usize) -> (mask: Self)
        requires
            width * height <= usize::MAX,
        ensures
            mask.wf(),
            mask.dims() == (width, height),
            forall|pos: RectPosition| !mask.has(pos),
    {
        let mask = RectMask { width, height, flags: vec![false; width * height] };
        assert forall|pos: RectPosition| !mask.has(pos) by {
            if pos.row < height && pos.col < width {
                lemma_flat_index(pos.row as int, pos.col as int, width as int, height as int);
                assert(height * width == width * height) by (nonlinear_arith);
            }
        }
        mask
    }

    /// Width and height.
    pub fn size(&self) -> (dims: (usize, usize))
        ensures
            dims == self.dims(),
    {
        (self.width, self.height)
    }

    /// Marks or unmarks `pos`; a position outside the bounds is left alone.
    pub fn set_flag(&mut self, pos: &RectPosition, flag: bool)
        requires
            old(self).wf(),
        ensures
            final(self).wf(),
            final(self).dims() == old(self).dims(),
            forall|other: RectPosition|
                final(self).has(other) == if other == *pos {
                    flag && pos.row < old(self).dims().1 && pos.col < old(self).dims().0
                } else {
                    old(self).has(other)
                },
    {
        if let Some(ind) = self.pos_to_ind(pos) {
            let ghost before = *self;
            self.flags.set(ind, flag);
            assert forall|other: RectPosition|
                self.has(other) == if other == *pos {
                    flag
                } else {
                    before.has(other)
                } by {
                if other == *pos {
                    assert(self.flags@[ind as int] == flag);
                } else if other.row < self.height && other.col < self.width {
                    lemma_flat_index(
                        other.row as int,
                        other.col as int,
                        self.width as int,
                        self.height as int,
                    );
                    lemma_flat_index(
                        pos.row as int,
                        pos.col as int,
                        self.width as int,
                        self.height as int,
                    );
                    assert(other.row * self.width + other.col != ind);
                }
            }
        }
    }

    /// Whether the mask marks `pos` as a cell.
    pub fn is_cell(&self, pos: &RectPosition) -> (marked: bool)
        requires
            self.wf(),
        ensures
            marked == self.has(*pos),
    {
        match self.pos_to_ind(pos) {
            Some(ind) => self.flags[ind],
            None => false,
        }
    }

    /// The marked positions, row by row.
    pub fn cell_pos_iter(&self) -> (marked: Vec<RectPosition>)
        requires
            self.wf(),
        ensures
            marked@.len() == self.cells().len(),
            forall|i: int| 0 <= i < marked@.len() ==> self.has(#[trigger] marked@[i]),
            forall|pos: RectPosition| self.has(pos) ==> marked@.contains(pos),
            forall|i: int, j: int|
                0 <= i < j < marked@.len() ==> (#[trigger] marked@[i]).pos().spec_before(
                    (#[trigger] marked@[j]).pos(),
                ),
    {
        let mut marked: Vec<RectPosition> = Vec::new();
        let ghost width = self.width as nat;
        let ghost height = self.height as nat;
        let ghost mask = Some(self.flags@);
        let mut ind: usize = 0;
        while ind < self.flags.len()
            invariant
                self.wf(),
                width == self.width,
                height == self.height,
                mask == Some(self.flags@),
                ind <= self.flags@.len(),
                marked@.len() == rect_count(width, height, mask, ind as nat),
                forall|i: int| 0 <= i < marked@.len() ==> self.has(#[trigger] marked@[i]),
                forall|i: int|
                    0 <= i < marked@.len() ==> (#[trigger] marked@[i]).row * width
                        + marked@[i].col < ind,
                forall|pos: RectPosition|
                    self.has(pos) && pos.row * width + pos.col < ind ==> marked@.contains(pos),
                forall|i: int, j: int|
                    0 <= i < j < marked@.len() ==> (#[trigger] marked@[i]).pos().spec_before(
                        (#[trigger] marked@[j]).pos(),
                    ),
            decreases self.flags@.len() - ind,
        {
            proof {
                crate::maze::lemma_flat_position(ind as int, width as int, height as int);
            }
            if self.flags[ind] {
                let pos = RectPosition::new(ind / self.width, ind % self.width);
                let ghost before = marked@;
                marked.push(pos);
                assert(marked@[before.len() as int] == pos);
                assert forall|i: int, j: int| 0 <= i < j < marked@.len() implies (
                #[trigger] marked@[i]).pos().spec_before((#[trigger] marked@[j]).pos()) by {
                    if j == before.len() {
                        let earlier = before[i];
                        assert(marked@[i] == earlier);
                        assert(earlier.row * width + earlier.col < ind);
                        assert(self.has(earlier));
                        assert(earlier.row <= pos.row) by (nonlinear_arith)
                            requires
                                earlier.row * width + earlier.col < pos.row * width + pos.col,
                                0 <= earlier.col < width,
                                0 <= pos.col < width,
                        ;
                    } else {
                        assert(marked@[i] == before[i] && marked@[j] == before[j]);
                    }
                }
                assert forall|other: RectPosition|
                    self.has(other) && other.row * width + other.col < ind + 1 implies marked@.contains(
                    other,
                ) by {
                    if other.row * width + other.col < ind {
                        let j = choose|j: int| 0 <= j < before.len() && before[j] == other;
                        assert(marked@[j] == other);
                    } else {
                        lemma_flat_index(
                            other.row as int,
                            other.col as int,
                            width as int,
                            height as int,
                        );
                    }
                }
            } else {
                assert forall|other: RectPosition|
                    self.has(other) && other.row * width + other.col < ind + 1 implies marked@.contains(
                    other,
                ) by {
                    if other.row * width + other.col == ind {
                        lemma_flat_index(
                            other.row as int,
                            other.col as int,
                            width as int,
                            height as int,
                        );
                    }
                }
            }
            ind += 1;
        }
        proof {
            crate::maze::lemma_rect_cells(width, height, mask);
            assert forall|pos: RectPosition| self.has(pos) implies marked@.contains(pos) by {
                lemma_flat_index(pos.row as int, pos.col as int, width as int, height as int);
                assert(height * width == width * height) by (nonlinear_arith);
            }
        }
        marked
    }

    /// The number of marked positions.
    pub fn cells_n(&self) -> (n: usize)
        requires
            self.wf(),
        ensures
            n == self.cells().len(),
    {
        let ghost width = self.width as nat;
        let ghost height = self.height as nat;
        let ghost mask = Some(self.flags@);
        let mut n: usize = 0;
        let mut ind: usize = 0;
        while ind < self.flags.len()
            invariant
                self.wf(),
                width == self.width,
                height == self.height,
                mask == Some(self.flags@),
                ind <= self.flags@.len(),
                n == rect_count(width, height, mask, ind as nat),
                n <= ind,
            decreases self.flags@.len() - ind,
        {
            proof {
                crate::maze::lemma_flat_position(ind as int, width as int, height as int);
            }
            if self.flags[ind] {
                n += 1;
            }
            ind += 1;
        }
        proof {
            crate::maze::lemma_rect_cells(width, height, mask);
        }
        n
    }

    /// The place of `pos` among the flags, if it lies within the bounds.
    pub(crate) fn pos_to_ind(&self, pos: &RectPosition) -> (ind: Option<usize>)
        requires
            self.wf(),
        ensures
            ind is Some <==> pos.row < self.height && pos.col < self.width,
            ind is Some ==> ind->0 == pos.row * self.width + pos.col && ind->0
                < self.flags@.len(),
    {
        if pos.row < self.height && pos.col < self.width {
            proof {
                lemma_flat_index(
                    pos.row as int,
                    pos.col as int,
                    self.width as int,
                    self.height as int,
                );
                assert(self.height * self.width == self.width * self.height) by (nonlinear_arith);
            }
            Some(pos.flat_ind(self.width))
        } else {
            None
        }
    }

    /// The position of a place among the flags, if there is such a place.
    pub(crate) fn ind_to_pos(&self, ind: usize) -> (pos: Option<RectPosition>)
        requires
            self.wf(),
        ensures
            pos is Some <==> ind < self.flags@.len(),
            pos is Some ==> pos->0.pos() == rect_pos_at(self.width as nat, ind as int),
    {
        if ind >= self.flags.len() {
            None
        } else {
            proof {
                crate::maze::lemma_flat_position(
                    ind as int,
                    self.width as int,
                    self.height as int,
                );
            }
            Some(RectPosition::new(ind / self.width, ind % self.width))
        }
    }
}

/// What a cell of the rectangular grid records: the passages to the north
/// and to the east. Those to the south and west are recorded by the
/// neighbours there.
#[derive(Debug, Clone, Copy)]
pub(crate) struct RectCell {
    pub(crate) is_connected_to_north: bool,
    pub(crate) is_connected_to_east: bool,
}

impl DefaultInRectGrid for RectCell {
    closed spec fn blank_at(pos: Position2d) -> Self {
        RectCell { is_connected_to_north: false, is_connected_to_east: false }
    }

    closed spec fn passages(&self) -> nat {
        (if self.is_connected_to_north {
            1nat
        } else {
            0nat
        }) + (if self.is_connected_to_east {
            1nat
        } else {
            0nat
        })
    }

    proof fn lemma_blank(pos: Position2d) {
    }

    fn default_at(pos: &Position2d) -> (cell: Self) {
        RectCell { is_connected_to_north: false, is_connected_to_east: false }
    }
}

/// A rectangular grid, with or without a mask.
#[derive(Debug)]
pub struct RectGrid<M: MaskType>(pub(crate) GeneralRectGrid<RectCell>, pub(crate) PhantomData<M>);

impl<M: MaskType> RectGrid<M> {
    /// The same position by row and column.
    pub open spec fn rp(pos: Position2d) -> RectPosition {
        RectPosition { row: pos.0, col: pos.1 }
    }

    /// Whether `pos` is a cell.
    pub open(crate) spec fn has(&self, pos: RectPosition) -> bool {
        self.0.has(pos.pos())
    }

    /// Width and height.
    pub open(crate) spec fn dims(&self) -> (usize, usize) {
        self.0.dims()
    }

    /// The mask's flags, if there is a mask.
    pub open(crate) spec fn marks(&self) -> Option<Seq<bool>> {
        self.0.marks()
    }

    /// The number of passages that the cells record.
    pub open(crate) spec fn passages_n(&self) -> nat {
        self.0.passages()
    }

    /// The cell next to the cell `pos` in direction `dir`, if there is one.
    pub open(crate) spec fn neighbor_at(&self, pos: RectPosition, dir: RectDirection) -> Option<
        RectPosition,
    > {
        if self.has(pos) {
            match pos.step(dir) {
                Some(next) => if self.has(next) {
                    Some(next)
                } else {
                    None
                },
                None => None,
            }
        } else {
            None
        }
    }

    /// The same as a plain position.
    pub open(crate) spec fn toward(&self, pos: Position2d, dir: RectDirection) -> Option<
        Position2d,
    > {
        match self.neighbor_at(Self::rp(pos), dir) {
            Some(next) => Some(next.pos()),
            None => None,
        }
    }

    /// Whether there is a passage from the cell `pos` in direction `dir`. The
    /// cell itself records it for north and east, the neighbour for south and
    /// west.
    pub open(crate) spec fn open_toward(&self, pos: RectPosition, dir: RectDirection) -> bool {
        match self.neighbor_at(pos, dir) {
            None => false,
            Some(next) => match dir {
                RectDirection::North => self.0.at(pos.pos()).is_connected_to_north,
                RectDirection::East => self.0.at(pos.pos()).is_connected_to_east,
                RectDirection::South => self.0.at(next.pos()).is_connected_to_north,
                RectDirection::West => self.0.at(next.pos()).is_connected_to_east,
            },
        }
    }

    /// Whether there is a passage between `a` and `b`.
    pub open(crate) spec fn linked(&self, a: Position2d, b: Position2d) -> bool {
        let from = Self::rp(a);
        let to = Some(Self::rp(b));
        ||| self.neighbor_at(from, RectDirection::North) == to && self.open_toward(
            from,
            RectDirection::North,
        )
        ||| self.neighbor_at(from, RectDirection::East) == to && self.open_toward(
            from,
            RectDirection::East,
        )
        ||| self.neighbor_at(from, RectDirection::West) == to && self.open_toward(
            from,
            RectDirection::West,
        )
        ||| self.neighbor_at(from, RectDirection::South) == to && self.open_toward(
            from,
            RectDirection::South,
        )
    }

    /// The cell records fit the size, and a passage is recorded only where
    /// there is a neighbour to lead to.
    pub open(crate) spec fn inv_records(&self) -> bool {
        &&& self.0.wf()
        &&& self.0.mask is Some <==> M::has_mask()
        &&& forall|pos: Position2d| #[trigger]
            self.0.has(pos) ==> {
                &&& self.0.at(pos).is_connected_to_north ==> self.neighbor_at(
                    Self::rp(pos),
                    RectDirection::North,
                ) is Some
                &&& self.0.at(pos).is_connected_to_east ==> self.neighbor_at(
                    Self::rp(pos),
                    RectDirection::East,
                ) is Some
            }
    }

    /// The records are consistent, and the passages are as many as the
    /// records count: the relation holds two ordered pairs for each.
    pub open(crate) spec fn inv(&self) -> bool {
        &&& self.inv_records()
        &&& self.passages().finite()
        &&& self.passages().len() == 2 * self.passages_n()
    }

    /// The cells next to `pos`: north, east, west, south.
    pub open(crate) spec fn around(&self, pos: Position2d) -> Seq<Position2d> {
        seq_of(self.toward(pos, RectDirection::North)) + seq_of(
            self.toward(pos, RectDirection::East),
        ) + seq_of(self.toward(pos, RectDirection::West)) + seq_of(
            self.toward(pos, RectDirection::South),
        )
    }

    /// The passages as pairs of positions, each in both directions.
    pub open(crate) spec fn passages(&self) -> Set<(Position2d, Position2d)> {
        Set::new(|pair: (Position2d, Position2d)| self.linked(pair.0, pair.1))
    }

    /// `b` is next to `a` exactly if it is the neighbour of `a` in one of the
    /// four directions.
    pub proof fn lemma_around(&self, a: Position2d, b: Position2d)
        ensures
            self.around(a).contains(b) <==> {
                ||| self.toward(a, RectDirection::North) == Some(b)
                ||| self.toward(a, RectDirection::East) == Some(b)
                ||| self.toward(a, RectDirection::West) == Some(b)
                ||| self.toward(a, RectDirection::South) == Some(b)
            },
    {
        let n = seq_of(self.toward(a, RectDirection::North));
        let ne = n + seq_of(self.toward(a, RectDirection::East));
        let new = ne + seq_of(self.toward(a, RectDirection::West));
        lemma_seq_of(Seq::empty(), self.toward(a, RectDirection::North), b);
        lemma_seq_of(n, self.toward(a, RectDirection::East), b);
        lemma_seq_of(ne, self.toward(a, RectDirection::West), b);
        lemma_seq_of(new, self.toward(a, RectDirection::South), b);
    }

    /// The neighbour in a direction has the cell as its neighbour in the
    /// opposite direction.
    pub proof fn lemma_neighbor_back(&self, pos: RectPosition, dir: RectDirection)
        requires
            self.neighbor_at(pos, dir) is Some,
        ensures
            self.neighbor_at(self.neighbor_at(pos, dir)->0, dir.opposite()) == Some(pos),
            self.neighbor_at(pos, dir)->0 != pos,
            self.open_toward(self.neighbor_at(pos, dir)->0, dir.opposite()) == self.open_toward(
                pos,
                dir,
            ),
    {
    }

    /// Being next to each other is mutual, and holds of two different cells
    /// only.
    pub proof fn lemma_around_back(&self, a: Position2d, b: Position2d)
        requires
            self.around(a).contains(b),
        ensures
            self.has(Self::rp(a)),
            self.has(Self::rp(b)),
            a != b,
            self.around(b).contains(a),
    {
        self.lemma_around(a, b);
        self.lemma_around(b, a);
        let from = Self::rp(a);
        let to = Self::rp(b);
        assert(to.pos() == b && from.pos() == a);
        if self.toward(a, RectDirection::North) == Some(b) {
            self.lemma_neighbor_back(from, RectDirection::North);
            assert(self.toward(b, RectDirection::South) == Some(a));
        } else if self.toward(a, RectDirection::East) == Some(b) {
            self.lemma_neighbor_back(from, RectDirection::East);
            assert(self.toward(b, RectDirection::West) == Some(a));
        } else if self.toward(a, RectDirection::West) == Some(b) {
            self.lemma_neighbor_back(from, RectDirection::West);
            assert(self.toward(b, RectDirection::East) == Some(a));
        } else {
            self.lemma_neighbor_back(from, RectDirection::South);
            assert(self.toward(b, RectDirection::North) == Some(a));
        }
    }

    /// A passage runs between neighbours, and in both directions.
    pub proof fn lemma_linked_back(&self, a: Position2d, b: Position2d)
        requires
            self.linked(a, b),
        ensures
            self.around(a).contains(b),
            self.linked(b, a),
    {
        self.lemma_around(a, b);
        let from = Self::rp(a);
        let to = Self::rp(b);
        assert(to.pos() == b && from.pos() == a);
        if self.neighbor_at(from, RectDirection::North) == Some(to) && self.open_toward(
            from,
            RectDirection::North,
        ) {
            self.lemma_neighbor_back(from, RectDirection::North);
        } else if self.neighbor_at(from, RectDirection::East) == Some(to) && self.open_toward(
            from,
            RectDirection::East,
        ) {
            self.lemma_neighbor_back(from, RectDirection::East);
        } else if self.neighbor_at(from, RectDirection::West) == Some(to) && self.open_toward(
            from,
            RectDirection::West,
        ) {
            self.lemma_neighbor_back(from, RectDirection::West);
        } else {
            self.lemma_neighbor_back(from, RectDirection::South);
        }
    }

    /// The neighbourhood of a rectangular grid holds the pairs of cells
    /// side by side in a row or column, and no other.
    pub proof fn lemma_adjacency(&self)
        requires
            self.inv(),
        ensures
            adjacency(self) == rect_adjacency(self.dims().0 as nat, self.dims().1 as nat, self.marks()),
            self.cells() == rect_cells(self.dims().0 as nat, self.dims().1 as nat, self.marks()),
    {
        let flat = rect_adjacency(self.dims().0 as nat, self.dims().1 as nat, self.marks());
        assert forall|pair: (Position2d, Position2d)| adjacency(self).contains(pair)
            == flat.contains(pair) by {
            self.lemma_around(pair.0, pair.1);
            let a = Self::rp(pair.0);
            let b = Self::rp(pair.1);
            assert(a.pos() == pair.0 && b.pos() == pair.1);
        }
        assert(adjacency(self) =~= flat);
    }

    /// Width and height.
    pub fn size(&self) -> (dims: (usize, usize))
        ensures
            dims == self.dims(),
    {
        self.0.size()
    }

    /// Whether `pos` is a cell that has no neighbour in direction `dir`.
    pub fn is_at_border(&self, pos: &RectPosition, dir: RectDirection) -> (at_border: bool)
        requires
            self.inv(),
        ensures
            at_border == (self.has(*pos) && self.neighbor_at(*pos, dir) is None),
    {
        self.0.is_cell(&Position2d(pos.row, pos.col)) && self.neighbor_pos(pos, dir).is_none()
    }

    /// Whether there is a passage from the cell `pos` in direction `dir`,
    /// whichever of the two cells records it.
    pub fn is_connected_to(&self, pos: &RectPosition, dir: RectDirection) -> (open: bool)
        requires
            self.inv(),
        ensures
            open == self.open_toward(*pos, dir),
            open == match self.neighbor_at(*pos, dir) {
                Some(next) => self.passages().contains((pos.pos(), next.pos())),
                None => false,
            },
        decreases
            (match dir {
                RectDirection::North | RectDirection::East => 0nat,
                _ => 1nat,
            }),
    {
        proof {
            self.lemma_open_toward(*pos, dir);
        }
        match self.neighbor_pos(pos, dir) {
            None => false,
            Some(neighbor) => {
                match dir {
                    RectDirection::North => {
                        let cell = self.0.cell(&Position2d(pos.row, pos.col));
                        cell.unwrap().is_connected_to_north
                    },
                    RectDirection::East => {
                        let cell = self.0.cell(&Position2d(pos.row, pos.col));
                        cell.unwrap().is_connected_to_east
                    },
                    other_dir => self.is_connected_to(&neighbor, other_dir.reverse()),
                }
            },
        }
    }

    /// The cell next to the cell `pos` in direction `dir`, if there is one.
    pub fn neighbor_pos(&self, pos: &RectPosition, dir: RectDirection) -> (next: Option<
        RectPosition,
    >)
        requires
            self.inv(),
        ensures
            next == self.neighbor_at(*pos, dir),
    {
        if self.0.is_cell(&Position2d(pos.row, pos.col)) {
            match pos.neighbor(dir) {
                Some(next) => if self.0.is_cell(&Position2d(next.row, next.col)) {
                    Some(next)
                } else {
                    None
                },
                None => None,
            }
        } else {
            None
        }
    }

    /// Opens the passage from the cell `pos` in direction `dir`, where there
    /// is a neighbour, and says whether there is one.
    pub fn connect_to(&mut self, pos: &RectPosition, dir: RectDirection) -> (connected: bool)
        requires
            old(self).inv(),
        ensures
            final(self).inv(),
            final(self).dims() == old(self).dims(),
            final(self).marks() == old(self).marks(),
            connected == old(self).neighbor_at(*pos, dir) is Some,
            connected ==> final(self).passages() == with_pair(
                old(self).passages(),
                pos.pos(),
                old(self).neighbor_at(*pos, dir)->0.pos(),
            ),
            !connected ==> final(self).passages() == old(self).passages(),
            final(self).passages_n() == old(self).passages_n() + if connected && !old(
                self,
            ).open_toward(*pos, dir) {
                1nat
            } else {
                0nat
            },
        decreases
            (match dir {
                RectDirection::North | RectDirection::East => 0nat,
                _ => 1nat,
            }),
    {
        let ghost before = *self;
        match self.neighbor_pos(pos, dir) {
            None => {
                assert(self.passages() =~= before.passages());
                false
            },
            Some(neighbor) => {
                let at = Position2d(pos.row, pos.col);
                match dir {
                    RectDirection::North => {
                        let mut cell = *self.0.cell(&at).unwrap();
                        cell.is_connected_to_north = true;
                        self.0.set_cell(&at, cell);
                        proof {
                            Self::lemma_opened(&before, &*self, *pos, dir);
                            before.lemma_counted(*pos, dir);
                        }
                        true
                    },
                    RectDirection::East => {
                        let mut cell = *self.0.cell(&at).unwrap();
                        cell.is_connected_to_east = true;
                        self.0.set_cell(&at, cell);
                        proof {
                            Self::lemma_opened(&before, &*self, *pos, dir);
                            before.lemma_counted(*pos, dir);
                        }
                        true
                    },
                    other_dir => {
                        let connected = self.connect_to(&neighbor, other_dir.reverse());
                        proof {
                            assert(before.neighbor_at(neighbor, other_dir.opposite()) == Some(
                                *pos,
                            ));
                            assert(with_pair(before.passages(), neighbor.pos(), pos.pos())
                                =~= with_pair(before.passages(), pos.pos(), neighbor.pos()));
                        }
                        connected
                    },
                }
            },
        }
    }

    /// What adding the passage from `pos` in direction `dir` does to the
    /// number of ordered pairs.
    proof fn lemma_counted(&self, pos: RectPosition, dir: RectDirection)
        requires
            self.inv(),
            self.neighbor_at(pos, dir) is Some,
        ensures
            with_pair(self.passages(), pos.pos(), self.neighbor_at(pos, dir)->0.pos()).finite(),
            with_pair(self.passages(), pos.pos(), self.neighbor_at(pos, dir)->0.pos()).len()
                == self.passages().len() + if self.open_toward(pos, dir) {
                0nat
            } else {
                2nat
            },
    {
        let next = self.neighbor_at(pos, dir)->0;
        self.lemma_open_toward(pos, dir);
        self.lemma_neighbor_back(pos, dir);
        assert(crate::graph::symmetric(self.passages())) by {
            assert forall|a: Position2d, b: Position2d| #[trigger]
                self.passages().contains((a, b)) implies self.passages().contains((b, a)) by {
                self.lemma_linked_back(a, b);
            }
        }
        crate::graph::lemma_with_pair_len(self.passages(), pos.pos(), next.pos());
    }

    /// What the passages are after the record of `pos` has gained the
    /// passage to the north or to the east.
    proof fn lemma_opened(before: &Self, after: &Self, pos: RectPosition, dir: RectDirection)
        requires
            before.inv(),
            after.0.wf(),
            dir == RectDirection::North || dir == RectDirection::East,
            before.neighbor_at(pos, dir) is Some,
            after.dims() == before.dims(),
            after.marks() == before.marks(),
            after.0.at(pos.pos()) == (if dir == RectDirection::North {
                RectCell { is_connected_to_north: true, ..before.0.at(pos.pos()) }
            } else {
                RectCell { is_connected_to_east: true, ..before.0.at(pos.pos()) }
            }),
            forall|x: Position2d|
                x.0 < before.0.height && x.1 < before.0.width && x != pos.pos()
                    ==> #[trigger] after.0.at(x) == before.0.at(x),
        ensures
            after.inv_records(),
            after.passages() == with_pair(
                before.passages(),
                pos.pos(),
                before.neighbor_at(pos, dir)->0.pos(),
            ),
    {
        let next = before.neighbor_at(pos, dir)->0;
        assert forall|x: RectPosition, d: RectDirection|
            after.neighbor_at(x, d) == before.neighbor_at(x, d) by {}
        assert forall|x: Position2d| #[trigger] after.0.has(x) implies {
            &&& after.0.at(x).is_connected_to_north ==> after.neighbor_at(
                Self::rp(x),
                RectDirection::North,
            ) is Some
            &&& after.0.at(x).is_connected_to_east ==> after.neighbor_at(
                Self::rp(x),
                RectDirection::East,
            ) is Some
        } by {
            assert(before.0.has(x));
        }
        let grown = with_pair(before.passages(), pos.pos(), next.pos());
        assert forall|pair: (Position2d, Position2d)| after.passages().contains(pair)
            == grown.contains(pair) by {
            let a = Self::rp(pair.0);
            let b = Self::rp(pair.1);
            assert(a.pos() == pair.0 && b.pos() == pair.1);
            assert(after.linked(pair.0, pair.1) == (before.linked(pair.0, pair.1) || (a == pos
                && b == next) || (a == next && b == pos)));
        }
        assert(after.passages() =~= grown);
    }
}

impl<M: MaskType> RectGrid<M> {
    /// Appends the neighbour of `pos` in direction `dir`, if there is one.
    fn push_toward(&self, pos: &Position2d, dir: RectDirection, neighbors: &mut Vec<Position2d>)
        requires
            self.inv(),
        ensures
            final(neighbors)@ == old(neighbors)@ + seq_of(self.toward(*pos, dir)),
    {
        match self.neighbor_pos(&RectPosition::new(pos.0, pos.1), dir) {
            Some(next) => {
                neighbors.push(Position2d(next.row, next.col));
                assert(neighbors@ =~= old(neighbors)@ + seq_of(self.toward(*pos, dir)));
            },
            None => {
                assert(neighbors@ =~= old(neighbors)@ + seq_of(self.toward(*pos, dir)));
            },
        }
    }
}

impl<M: MaskType> Grid2d for RectGrid<M> {
    type Frame = (usize, usize, Option<Seq<bool>>);

    open(crate) spec fn valid(&self) -> bool {
        self.inv()
    }

    open(crate) spec fn frame(&self) -> (usize, usize, Option<Seq<bool>>) {
        (self.0.width, self.0.height, self.0.marks())
    }

    open(crate) spec fn cells(&self) -> Set<Position2d> {
        self.0.cell_set()
    }

    open(crate) spec fn neighbors_of(&self, pos: Position2d) -> Seq<Position2d> {
        self.around(pos)
    }

    open(crate) spec fn links(&self) -> Set<(Position2d, Position2d)> {
        self.passages()
    }

    open(crate) spec fn links_n(&self) -> nat {
        self.passages_n()
    }

    proof fn lemma_graph(&self) {
        lemma_rect_cells(self.0.width as nat, self.0.height as nat, self.0.marks());
        assert forall|a: Position2d, b: Position2d| #[trigger]
            self.neighbors_of(a).contains(b) implies self.cells().contains(a)
            && self.cells().contains(b) && a != b && self.neighbors_of(b).contains(a) by {
            self.lemma_around_back(a, b);
        }
        assert forall|a: Position2d, b: Position2d| #[trigger]
            self.links().contains((a, b)) implies self.neighbors_of(a).contains(b)
            && self.links().contains((b, a)) by {
            self.lemma_linked_back(a, b);
        }
    }

    proof fn lemma_frame(&self, other: &Self) {
    }

    fn cells_n(&self) -> (n: usize) {
        self.0.cells_n()
    }

    fn random_cell_pos(&self, rng: &mut RandomSource) -> (picked: Option<Position2d>) {
        self.0.random_cell_pos(rng)
    }

    fn all_cells_pos_set(&self) -> (all: PosSet) {
        self.0.all_cells_pos_set()
    }

    fn append_neighbors(&self, pos: &Position2d, neighbors: &mut Vec<Position2d>) {
        if self.0.is_cell(pos) {
            self.push_toward(pos, RectDirection::North, neighbors);
            self.push_toward(pos, RectDirection::East, neighbors);
            self.push_toward(pos, RectDirection::West, neighbors);
            self.push_toward(pos, RectDirection::South, neighbors);
        }
        assert(neighbors@ =~= old(neighbors)@ + self.around(*pos));
    }

    fn connect_to(&mut self, from: &Position2d, to: &Position2d) -> (connected: bool) {
        let rect_from = RectPosition::new(from.0, from.1);
        let rect_to = RectPosition::new(to.0, to.1);
        proof {
            self.lemma_around(*from, *to);
        }
        if !(self.0.is_cell(from) && self.0.is_cell(to)) {
            return false;
        }
        let dirs = RectDirection::all_dirs();
        let mut i: usize = 0;
        while i < 4
            invariant
                i <= 4,
                dirs@ == seq![
                    RectDirection::North,
                    RectDirection::East,
                    RectDirection::West,
                    RectDirection::South,
                ],
                rect_from.pos() == *from,
                rect_to.pos() == *to,
                self.inv(),
                *self == *old(self),
                self.has(rect_from),
                self.has(rect_to),
                forall|j: int| 0 <= j < i ==> rect_from.step(#[trigger] dirs@[j]) != Some(rect_to),
            decreases 4 - i,
        {
            let dir = dirs[i];
            let found = match rect_from.neighbor(dir) {
                Some(next) => next.row == rect_to.row && next.col == rect_to.col,
                None => false,
            };
            if found {
                proof {
                    self.lemma_around(*from, *to);
                }
                return self.connect_to(&rect_from, dir);
            }
            i += 1;
        }
        proof {
            self.lemma_around(*from, *to);
            assert(rect_from.step(dirs@[0]) != Some(rect_to));
            assert(rect_from.step(dirs@[1]) != Some(rect_to));
            assert(rect_from.step(dirs@[2]) != Some(rect_to));
            assert(rect_from.step(dirs@[3]) != Some(rect_to));
        }
        false
    }
}

impl LayerGrid for RectGrid<NoMask> {
    open(crate) spec fn layer_count(&self) -> nat {
        self.0.height as nat
    }

    open(crate) spec fn layer_size(&self, layer: nat) -> nat {
        self.0.width as nat
    }

    open(crate) spec fn above(&self, pos: Position2d) -> Seq<Position2d> {
        seq_of(self.toward(pos, RectDirection::North))
    }

    open(crate) spec fn below(&self, pos: Position2d) -> Seq<Position2d> {
        seq_of(self.toward(pos, RectDirection::South))
    }

    proof fn lemma_layers(&self) {
        assert forall|p: Position2d|
            self.cells().contains(p) && p.1 > 0 implies #[trigger] self.neighbors_of(p).contains(
            Position2d(p.0, (p.1 - 1) as usize),
        ) by {
            self.lemma_around(p, Position2d(p.0, (p.1 - 1) as usize));
        }
        assert forall|p: Position2d, q: Position2d| #[trigger]
            self.below(p).contains(q) implies self.neighbors_of(p).contains(q) && q.0 == p.0 + 1 by {
            self.lemma_around(p, q);
            lemma_seq_of(Seq::empty(), self.toward(p, RectDirection::South), q);
        }
        assert forall|p: Position2d|
            self.cells().contains(p) && p.0 + 1 < self.layer_count() implies (
        #[trigger] self.below(p)).len() > 0 by {
            assert(self.0.has(Position2d((p.0 + 1) as usize, p.1)));
        }
        assert forall|p: Position2d, r: Position2d, q: Position2d|
            #[trigger] self.below(p).contains(q) && #[trigger] self.below(r).contains(q) implies p
            == r by {
            lemma_seq_of(Seq::empty(), self.toward(p, RectDirection::South), q);
            lemma_seq_of(Seq::empty(), self.toward(r, RectDirection::South), q);
        }
        assert forall|p: Position2d, q: Position2d| #[trigger]
            self.above(p).contains(q) <==> self.below(q).contains(p) by {
            lemma_seq_of(Seq::empty(), self.toward(p, RectDirection::North), q);
            lemma_seq_of(Seq::empty(), self.toward(q, RectDirection::South), p);
        }
    }

    proof fn lemma_layer_frame(&self, other: &Self) {
    }

    fn layers_n(&self) -> (n: usize) {
        self.0.height
    }

    fn cells_n_at(&self, _layer_ind: usize) -> (n: usize) {
        self.0.width
    }

    fn append_neighbors_upper_layer(&self, pos: &Position2d, neighbors: &mut Vec<Position2d>) {
        self.push_toward(pos, RectDirection::North, neighbors);
    }

    fn append_neighbors_lower_layer(&self, pos: &Position2d, neighbors: &mut Vec<Position2d>) {
        self.push_toward(pos, RectDirection::South, neighbors);
    }
}

impl RectGrid<NoMask> {
    /// A grid of `width` by `height` cells without passages.
    pub fn new(width: usize, height: usize) -> (grid: Self)
        requires
            width * height <= usize::MAX,
        ensures
            grid.valid(),
            grid.dims() == (width, height),
            grid.marks() is None,
            grid.links() == Set::<(Position2d, Position2d)>::empty(),
            grid.links_n() == 0,
            is_connected(&grid),
    {
        let grid = RectGrid::<NoMask>(GeneralRectGrid::<RectCell>::new(width, height), PhantomData);
        proof {
            grid.lemma_fresh();
            grid.lemma_adjacency();
            lemma_rect_grid_connected(&grid, width as nat, height as nat);
        }
        grid
    }
}

impl RectGrid<WithMask> {
    /// A grid without passages whose cells are the positions that the mask
    /// marks. Whether the cells hang together is not looked at here:
    /// `try_new` does that.
    pub fn new(mask: &RectMask) -> (grid: Self)
        requires
            mask.wf(),
        ensures
            grid.valid(),
            grid.dims() == mask.dims(),
            grid.marks() == Some(mask.marks()),
            grid.links() == Set::<(Position2d, Position2d)>::empty(),
            grid.links_n() == 0,
            is_connected(&grid) == mask.connected(),
    {
        let grid = RectGrid::<WithMask>(GeneralRectGrid::<RectCell>::with_mask(mask), PhantomData);
        proof {
            grid.lemma_fresh();
            grid.lemma_adjacency();
        }
        grid
    }

    /// A grid without passages whose cells are the positions that the mask
    /// marks, where every cell can be reached from every other along rows
    /// and columns; refused otherwise.
    pub fn try_new(mask: &RectMask) -> (made: Result<Self, Error>)
        requires
            mask.wf(),
        ensures
            made is Ok <==> mask.connected(),
            match made {
                Ok(grid) => {
                    &&& grid.valid()
                    &&& grid.dims() == mask.dims()
                    &&& grid.marks() == Some(mask.marks())
                    &&& grid.links() == Set::<(Position2d, Position2d)>::empty()
                    &&& grid.links_n() == 0
                    &&& is_connected(&grid)
                },
                Err(err) => err == Error::IsolatedAreaInRectMask,
            },
    {
        let grid = Self::new(mask);
        if crate::reach::check_connected(&grid) {
            Ok(grid)
        } else {
            Err(Error::IsolatedAreaInRectMask)
        }
    }
}

impl<M: MaskType> RectGrid<M> {
    /// A grid of fresh cells is valid and has no passage.
    proof fn lemma_fresh(&self)
        requires
            self.0.wf(),
            self.0.is_fresh(),
            self.0.mask is Some <==> M::has_mask(),
        ensures
            self.inv(),
            self.passages() == Set::<(Position2d, Position2d)>::empty(),
            self.passages_n() == 0,
    {
        self.0.lemma_fresh();
        assert forall|pos: Position2d| #[trigger] self.0.has(pos) implies !self.0.at(
            pos,
        ).is_connected_to_north && !self.0.at(pos).is_connected_to_east by {
            lemma_flat_index(
                pos.0 as int,
                pos.1 as int,
                self.0.width as int,
                self.0.height as int,
            );
        }
        assert forall|pair: (Position2d, Position2d)| !self.passages().contains(pair) by {
            let a = Self::rp(pair.0);
            let b = Self::rp(pair.1);
            if self.has(a) && self.has(b) {
                assert(self.0.has(a.pos()) && self.0.has(b.pos()));
            }
        }
        assert(self.passages() =~= Set::<(Position2d, Position2d)>::empty());
    }
}

/// A finished rectangular maze.
#[derive(Debug)]
pub enum RectMaze {
    NoMask(RectGrid<NoMask>),
    WithMask(RectGrid<WithMask>),
}

impl RectMaze {
    /// The maze's grid is valid.
    pub open spec fn valid(&self) -> bool {
        match self {
            RectMaze::NoMask(grid) => grid.valid(),
            RectMaze::WithMask(grid) => grid.valid(),
        }
    }

    /// Width and height.
    pub open spec fn dims(&self) -> (usize, usize) {
        match self {
            RectMaze::NoMask(grid) => grid.dims(),
            RectMaze::WithMask(grid) => grid.dims(),
        }
    }

    /// The cells.
    pub open spec fn cells(&self) -> Set<Position2d> {
        match self {
            RectMaze::NoMask(grid) => grid.cells(),
            RectMaze::WithMask(grid) => grid.cells(),
        }
    }

    /// The passages, each as a pair of positions in both directions.
    pub open spec fn links(&self) -> Set<(Position2d, Position2d)> {
        match self {
            RectMaze::NoMask(grid) => grid.links(),
            RectMaze::WithMask(grid) => grid.links(),
        }
    }

    /// The number of passages.
    pub open spec fn links_n(&self) -> nat {
        match self {
            RectMaze::NoMask(grid) => grid.links_n(),
            RectMaze::WithMask(grid) => grid.links_n(),
        }
    }

    /// The position one step from `pos` in direction `dir`, where both are
    /// cells.
    pub open spec fn neighbor_at(&self, pos: RectPosition, dir: RectDirection) -> Option<
        RectPosition,
    > {
        match self {
            RectMaze::NoMask(grid) => grid.neighbor_at(pos, dir),
            RectMaze::WithMask(grid) => grid.neighbor_at(pos, dir),
        }
    }

    /// Whether a wall stands on the side `dir` of the position `pos`: on
    /// the side of a cell where no passage leads that way, and on the side
    /// of a position that is no cell where a cell lies that way.
    pub open spec fn wall_at(&self, pos: RectPosition, dir: RectDirection) -> bool {
        if self.cells().contains(pos.pos()) {
            match self.neighbor_at(pos, dir) {
                Some(next) => !self.links().contains((pos.pos(), next.pos())),
                None => true,
            }
        } else {
            match pos.step(dir) {
                Some(next) => self.cells().contains(next.pos()),
                None => false,
            }
        }
    }

    /// Whether a wall stands on the side `dir` of the position `pos`.
    pub fn has_wall(&self, pos: &RectPosition, dir: RectDirection) -> (wall: bool)
        requires
            self.valid(),
        ensures
            wall == self.wall_at(*pos, dir),
    {
        if self.is_cell(pos) {
            !self.is_connected_to(pos, dir)
        } else {
            match pos.neighbor(dir) {
                Some(neighbor) => self.is_cell(&neighbor),
                None => false,
            }
        }
    }

    /// Width and height.
    pub fn size(&self) -> (dims: (usize, usize))
        ensures
            dims == self.dims(),
    {
        match self {
            RectMaze::NoMask(rect_grid) => rect_grid.size(),
            RectMaze::WithMask(rect_grid) => rect_grid.size(),
        }
    }

    /// Whether `pos` is a cell.
    pub fn is_cell(&self, pos: &RectPosition) -> (found: bool)
        requires
            self.valid(),
        ensures
            found == self.cells().contains(pos.pos()),
    {
        match self {
            RectMaze::NoMask(rect_grid) => rect_grid.0.is_cell(&Position2d(pos.row, pos.col)),
            RectMaze::WithMask(rect_grid) => rect_grid.0.is_cell(&Position2d(pos.row, pos.col)),
        }
    }

    /// Whether there is a passage from the cell `pos` in direction `dir`,
    /// whichever of the two cells records it.
    pub fn is_connected_to(&self, pos: &RectPosition, dir: RectDirection) -> (open: bool)
        requires
            self.valid(),
        ensures
            open == match self.neighbor_at(*pos, dir) {
                Some(next) => self.links().contains((pos.pos(), next.pos())),
                None => false,
            },
    {
        match self {
            RectMaze::NoMask(rect_grid) => {
                proof {
                    rect_grid.lemma_open_toward(*pos, dir);
                }
                rect_grid.is_connected_to(pos, dir)
            },
            RectMaze::WithMask(rect_grid) => {
                proof {
                    rect_grid.lemma_open_toward(*pos, dir);
                }
                rect_grid.is_connected_to(pos, dir)
            },
        }
    }
}

impl<M: MaskType> RectGrid<M> {
    /// A passage leads from a cell in a direction exactly if the cell and its
    /// neighbour there are linked.
    pub proof fn lemma_open_toward(&self, pos: RectPosition, dir: RectDirection)
        requires
            self.inv(),
        ensures
            self.open_toward(pos, dir) == match self.neighbor_at(pos, dir) {
                Some(next) => self.links().contains((pos.pos(), next.pos())),
                None => false,
            },
    {
    }
}

} // verus!
