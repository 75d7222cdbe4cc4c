//! The ring topology: cells in concentric rings round a single middle cell.
//! From one ring to the next the number of cells stays or grows by a whole
//! factor, so that the cells keep roughly the same width.

use crate::graph::{
    joined, lemma_all_joined_from, lemma_joined_self, lemma_joined_step, lemma_joined_trans,
    symmetric, with_pair,
};
use crate::maze::{
    adjacency, is_connected, lemma_concat_contains, lemma_passages_none, lemma_passages_update, passages_below,
    DefaultInRectGrid, Grid2d, LayerGrid, Position2d,
};
use crate::pos_set::PosSet;
use crate::random::RandomSource;
use std::ops::Range;
use vstd::arithmetic::div_mod::{
    lemma_div_by_multiple, lemma_fundamental_div_mod, lemma_fundamental_div_mod_converse,
};
use vstd::prelude::*;
use vstd::set_lib::lemma_set_disjoint_lens;

verus! {

/// The four directions of a ring grid.
#[derive(Debug, Clone, Copy, PartialEq, Eq, PartialOrd, Ord, Hash, Structural)]
pub enum CircDirection {
    Inward,
    Clockwise,
    Counterclockwise,
    Outward,
}

impl CircDirection {
    /// The four directions, in the order in which neighbours are listed.
    pub fn all_dirs() -> (dirs: [CircDirection; 4])
        ensures
            dirs@ == seq![
                CircDirection::Inward,
                CircDirection::Clockwise,
                CircDirection::Counterclockwise,
                CircDirection::Outward,
            ],
    {
        let dirs = [
            CircDirection::Inward,
            CircDirection::Clockwise,
            CircDirection::Counterclockwise,
            CircDirection::Outward,
        ];
        assert(dirs@ =~= seq![
            CircDirection::Inward,
            CircDirection::Clockwise,
            CircDirection::Counterclockwise,
            CircDirection::Outward,
        ]);
        dirs
    }
}

/// A position by ring, counted from the middle, and cell within the ring,
/// counted clockwise.
#[derive(Debug, Clone, Copy, PartialEq, Eq, PartialOrd, Ord, Hash, Structural)]
pub struct CircPosition {
    pub ring: usize,
    pub cell: usize,
}

impl From<CircPosition> for Position2d {
    fn from(value: CircPosition) -> (pos: Self) {
        Position2d(value.ring, value.cell)
    }
}

impl vstd::std_specs::convert::FromSpecImpl<CircPosition> for Position2d {
    open spec fn obeys_from_spec() -> bool {
        true
    }

    open spec fn from_spec(value: CircPosition) -> Self {
        Position2d(value.ring, value.cell)
    }
}

impl From<Position2d> for CircPosition {
    fn from(value: Position2d) -> (pos: Self) {
        CircPosition { ring: value.0, cell: value.1 }
    }
}

impl vstd::std_specs::convert::FromSpecImpl<Position2d> for CircPosition {
    open spec fn obeys_from_spec() -> bool {
        true
    }

    open spec fn from_spec(value: Position2d) -> Self {
        CircPosition { ring: value.0, cell: value.1 }
    }
}

impl CircPosition {
    /// The same ring and cell as a plain position.
    pub open spec fn pos(self) -> Position2d {
        Position2d(self.ring, self.cell)
    }

    /// The position of a cell in a ring.
    pub fn new(ring: usize, cell: usize) -> (pos: Self)
        ensures
            pos == (CircPosition { ring, cell }),
    {
        CircPosition { ring, cell }
    }
}

/// What a cell of the ring grid records: the passage inward and the passage
/// to the next cell clockwise. The other passages are recorded by the
/// neighbours.
#[derive(Debug, Clone, Copy, PartialEq, Eq, PartialOrd, Ord, Hash)]
pub struct CircCell {
    pub(crate) is_connect_inward: bool,
    pub(crate) is_connect_clockwise: bool,
}

impl DefaultInRectGrid for CircCell {
    closed spec fn blank_at(pos: Position2d) -> Self {
        CircCell { is_connect_inward: false, is_connect_clockwise: false }
    }

    closed spec fn passages(&self) -> nat {
        (if self.is_connect_inward {
            1nat
        } else {
            0nat
        }) + (if self.is_connect_clockwise {
            1nat
        } else {
            0nat
        })
    }

    proof fn lemma_blank(pos: Position2d) {
    }

    fn default_at(pos: &Position2d) -> (cell: Self) {
        CircCell { is_connect_inward: false, is_connect_clockwise: false }
    }
}

/// The positions that `neighbor_pos_iter` hands out one by one.
pub enum CircCellPosIter {
    Once(Option<CircPosition>),
    CellRange { ring: usize, cell_range: Range<usize>, cur_cell: usize },
}

impl CircCellPosIter {
    /// The positions still to come.
    pub open spec fn remaining(self) -> Seq<CircPosition> {
        match self {
            CircCellPosIter::Once(Some(pos)) => seq![pos],
            CircCellPosIter::Once(None) => Seq::empty(),
            CircCellPosIter::CellRange { ring, cell_range, cur_cell } => if cell_range.start
                <= cur_cell < cell_range.end {
                Seq::new(
                    (cell_range.end - cur_cell) as nat,
                    |j: int| CircPosition { ring, cell: (cur_cell + j) as usize },
                )
            } else {
                Seq::empty()
            },
        }
    }

    /// The next position, if there is one.
    pub fn next(&mut self) -> (item: Option<CircPosition>)
        ensures
            old(self).remaining().len() == 0 ==> item is None && final(self).remaining().len()
                == 0,
            old(self).remaining().len() > 0 ==> item == Some(old(self).remaining()[0]) && final(self).remaining() == old(self).remaining().drop_first(),
    {
        match self {
            CircCellPosIter::Once(circ_position) => {
                let item = *circ_position;
                *circ_position = None;
                proof {
                    if item is Some {
                        assert(seq![item->0].drop_first() =~= Seq::<CircPosition>::empty());
                    }
                }
                item
            },
            CircCellPosIter::CellRange { ring, cell_range, cur_cell } => {
                if cell_range.start <= *cur_cell && *cur_cell < cell_range.end {
                    let pos = CircPosition::new(*ring, *cur_cell);
                    let ghost before = (CircCellPosIter::CellRange {
                        ring: *ring,
                        cell_range: *cell_range,
                        cur_cell: *cur_cell,
                    }).remaining();
                    *cur_cell += 1;
                    proof {
                        let after = (CircCellPosIter::CellRange {
                            ring: *ring,
                            cell_range: *cell_range,
                            cur_cell: *cur_cell,
                        }).remaining();
                        assert(after =~= before.drop_first());
                    }
                    Some(pos)
                } else {
                    None
                }
            },
        }
    }

    /// The walk over no position.
    fn empty() -> (iter: Self)
        ensures
            iter.remaining() == Seq::<CircPosition>::empty(),
    {
        CircCellPosIter::Once(None)
    }

    /// The walk over one position.
    fn once(ring: usize, cell: usize) -> (iter: Self)
        ensures
            iter.remaining() == seq![CircPosition { ring, cell }],
    {
        CircCellPosIter::Once(Some(CircPosition::new(ring, cell)))
    }

    /// The walk over the cells of one ring whose places lie in `range`.
    fn cell_range(ring: usize, range: Range<usize>) -> (iter: Self)
        ensures
            iter.remaining() == if range.start < range.end {
                Seq::new(
                    (range.end - range.start) as nat,
                    |j: int| CircPosition { ring, cell: (range.start + j) as usize },
                )
            } else {
                Seq::empty()
            },
    {
        let cur_cell = range.start;
        CircCellPosIter::CellRange { ring, cur_cell, cell_range: range }
    }
}

/// π as a fraction, good for sixteen digits.
pub const PI_NUMERATOR: u128 = 3141592653589793;

/// What `PI_NUMERATOR` is to be divided by.
pub const PI_DENOMINATOR: u128 = 1000000000000000;

/// By how much a ring has more cells than the ring inside it, which has
/// `inner` cells: the circumference at `ring` rings from the middle divided
/// by `inner`, rounded to the nearest whole number, and never less than 1.
pub open spec fn ring_ratio(ring: nat, inner: nat) -> nat {
    let rounded = (4 * PI_NUMERATOR * ring + PI_DENOMINATOR * inner) / (2 * PI_DENOMINATOR
        * inner);
    if rounded < 1 {
        1
    } else {
        rounded as nat
    }
}

/// The number of cells in a ring: one in the middle, and in every other
/// ring a whole multiple of the number in the ring inside it.
pub open spec fn ring_size(ring: nat) -> nat
    decreases ring,
{
    if ring == 0 {
        1
    } else {
        ring_size((ring - 1) as nat) * ring_ratio(ring, ring_size((ring - 1) as nat))
    }
}

/// The number of cells in a ring and all the rings inside it.
pub open spec fn ring_end(ring: nat) -> nat
    decreases ring,
{
    if ring == 0 {
        1
    } else {
        ring_end((ring - 1) as nat) + ring_size(ring)
    }
}

/// The number of cells in the rings inside a ring.
pub open spec fn ring_start(ring: nat) -> nat {
    if ring == 0 {
        0
    } else {
        ring_end((ring - 1) as nat)
    }
}

/// How many cells of the next ring lie outside one cell of a ring.
pub open spec fn ring_fan(ring: nat) -> nat {
    ring_ratio(ring + 1, ring_size(ring))
}

/// A ring has at least one cell, and the next ring as many times more as
/// its fan says.
pub proof fn lemma_ring(ring: nat)
    ensures
        ring_size(ring) >= 1,
        ring_fan(ring) >= 1,
        ring_size(ring + 1) == ring_size(ring) * ring_fan(ring),
        ring_size(ring + 1) >= ring_size(ring),
        ring_size(ring + 1) / ring_size(ring) == ring_fan(ring),
        ring_start(ring) + ring_size(ring) == ring_end(ring),
        ring_end(ring + 1) == ring_end(ring) + ring_size(ring + 1),
    decreases ring,
{
    if ring > 0 {
        lemma_ring((ring - 1) as nat);
    }
    let size = ring_size(ring) as int;
    let fan = ring_fan(ring) as int;
    assert(size * fan >= size) by (nonlinear_arith)
        requires
            size >= 1,
            fan >= 1,
    ;
    lemma_div_by_multiple(fan, size);
    assert(size * fan == fan * size) by (nonlinear_arith);
}

/// Every ring but the middle has at least six cells.
pub proof fn lemma_ring_six(ring: nat)
    requires
        ring >= 1,
    ensures
        ring_size(ring) >= 6,
    decreases ring,
{
    if ring == 1 {
        assert(ring_size(0) == 1);
        assert(PI_NUMERATOR == 3141592653589793 && PI_DENOMINATOR == 1000000000000000);
        assert(4 * PI_NUMERATOR * 1 + PI_DENOMINATOR * 1 == 13566370614359172);
        assert(2 * PI_DENOMINATOR * 1 == 2000000000000000);
        assert(13566370614359172int / 2000000000000000int == 6);
        assert(ring_ratio(1, 1) == 6);
        assert(ring_size(1) == ring_size(0) * ring_ratio(1, ring_size(0)));
    } else {
        lemma_ring_six((ring - 1) as nat);
        lemma_ring((ring - 1) as nat);
    }
}

/// A ring has at least as many cells as it is rings away from the middle.
pub proof fn lemma_ring_wide(ring: nat)
    ensures
        ring_size(ring) >= ring,
        ring_size(ring) >= 1,
    decreases ring,
{
    lemma_ring(ring);
    if ring >= 2 {
        let inner = ring_size((ring - 1) as nat) as int;
        lemma_ring_wide((ring - 1) as nat);
        lemma_ring((ring - 1) as nat);
        let ratio = ring_ratio(ring, inner as nat) as int;
        assert(ring_size(ring) == inner * ratio);
        if inner >= ring {
            assert(inner * ratio >= inner) by (nonlinear_arith)
                requires
                    inner >= 1,
                    ratio >= 1,
            ;
        } else {
            assert(inner == ring - 1);
            assert(PI_NUMERATOR == 3141592653589793 && PI_DENOMINATOR == 1000000000000000);
            let top = 4 * PI_NUMERATOR * ring + PI_DENOMINATOR * inner;
            let bottom = 2 * PI_DENOMINATOR * inner;
            assert(top >= 2 * bottom && bottom > 0) by (nonlinear_arith)
                requires
                    top == 4 * 3141592653589793 * ring + 1000000000000000 * inner,
                    bottom == 2 * 1000000000000000 * inner,
                    inner == ring - 1,
                    ring >= 2,
            ;
            vstd::arithmetic::div_mod::lemma_div_is_ordered(2 * bottom, top, bottom);
            lemma_div_by_multiple(2, bottom);
            assert(ratio >= 2);
            assert(inner * ratio >= ring) by (nonlinear_arith)
                requires
                    inner == ring - 1,
                    ring >= 2,
                    ratio >= 2,
            ;
        }
    } else if ring == 1 {
        lemma_ring_six(1);
    }
}

/// The rings up to a ring have more than half the ring's number squared
/// of cells.
pub proof fn lemma_ring_end_wide(ring: nat)
    ensures
        2 * ring_end(ring) >= ring * (ring + 1) + 2,
    decreases ring,
{
    if ring > 0 {
        let inner = (ring - 1) as nat;
        lemma_ring_end_wide(inner);
        lemma_ring_wide(ring);
        let r = ring as int;
        let i = inner as int;
        assert(r * (r + 1) == i * (i + 1) + 2 * r) by (nonlinear_arith)
            requires
                i == r - 1,
        ;
        assert(ring_end(ring) == ring_end(inner) + ring_size(ring));
    } else {
        assert(ring_end(0) == 1);
        assert(ring * (ring + 1) == 0) by (nonlinear_arith)
            requires
                ring == 0,
        ;
    }
}

/// The rings' ends go up with the rings.
pub proof fn lemma_ring_ends(ring: nat, later: nat)
    requires
        ring < later,
    ensures
        ring_end(ring) < ring_end(later),
        ring_end(ring) <= ring_start(later),
        ring_size(later) <= ring_end(later),
    decreases later,
{
    lemma_ring((later - 1) as nat);
    lemma_ring(later);
    if ring + 1 < later {
        lemma_ring_ends(ring, (later - 1) as nat);
    }
}

/// The number of cells in a ring whose inner neighbour has `inner` cells,
/// unless it is too large for a machine word.
fn next_ring_size(ring: usize, inner: usize) -> (size: Option<usize>)
    requires
        inner >= 1,
    ensures
        size is Some <==> inner * ring_ratio(ring as nat, inner as nat) <= usize::MAX,
        size is Some ==> size->0 == inner * ring_ratio(ring as nat, inner as nat),
{
    assert(PI_NUMERATOR == 3141592653589793 && PI_DENOMINATOR == 1000000000000000);
    assert(usize::MAX <= 0xFFFF_FFFF_FFFF_FFFF);
    let ring_wide = ring as u128;
    let inner_wide = inner as u128;
    let circumference: u128 = 4 * PI_NUMERATOR;
    let span: u128 = 2 * PI_DENOMINATOR;
    assert(circumference * ring_wide <= 12566370614359172 * 0xFFFF_FFFF_FFFF_FFFF)
        by (nonlinear_arith)
        requires
            circumference == 12566370614359172,
            ring_wide <= 0xFFFF_FFFF_FFFF_FFFF,
    ;
    assert(PI_DENOMINATOR * inner_wide <= 1000000000000000 * 0xFFFF_FFFF_FFFF_FFFF)
        by (nonlinear_arith)
        requires
            PI_DENOMINATOR == 1000000000000000,
            inner_wide <= 0xFFFF_FFFF_FFFF_FFFF,
    ;
    assert(1 <= span * inner_wide <= 2000000000000000 * 0xFFFF_FFFF_FFFF_FFFF)
        by (nonlinear_arith)
        requires
            span == 2000000000000000,
            1 <= inner_wide <= 0xFFFF_FFFF_FFFF_FFFF,
    ;
    let top: u128 = circumference * ring_wide + PI_DENOMINATOR * inner_wide;
    let bottom: u128 = span * inner_wide;
    let rounded: u128 = top / bottom;
    assert(rounded == (4 * PI_NUMERATOR * ring + PI_DENOMINATOR * inner) / (2 * PI_DENOMINATOR
        * inner));
    let ratio: u128 = if rounded < 1 {
        1
    } else {
        rounded
    };
    let limit = usize::MAX as u128;
    proof {
        let r = ratio as int;
        let i = inner as int;
        assert(r <= i * r) by (nonlinear_arith)
            requires
                i >= 1,
                r >= 0,
        ;
        if ratio <= limit {
            assert(i * r <= 0xFFFF_FFFF_FFFF_FFFF * 0xFFFF_FFFF_FFFF_FFFF) by (nonlinear_arith)
                requires
                    0 <= i <= 0xFFFF_FFFF_FFFF_FFFF,
                    0 <= r <= 0xFFFF_FFFF_FFFF_FFFF,
            ;
        }
    }
    if ratio > limit {
        return None;
    }
    let size = inner_wide * ratio;
    if size > limit {
        None
    } else {
        Some(size as usize)
    }
}

/// A grid of rings round a middle cell.
#[derive(Debug)]
pub struct CircGrid {
    pub(crate) rings_n: usize,
    pub(crate) ring_end_inds: Vec<usize>,
    pub(crate) cells: Vec<CircCell>,
}

impl CircGrid {
    /// The ends of the rings and the cell records fit the number of rings.
    pub open(crate) spec fn wf(&self) -> bool {
        &&& self.ring_end_inds@.len() == self.rings_n
        &&& forall|ring: int|
            0 <= ring < self.rings_n ==> #[trigger] self.ring_end_inds@[ring] == ring_end(
                ring as nat,
            )
        &&& self.cells@.len() == ring_start(self.rings_n as nat)
        &&& ring_start(self.rings_n as nat) <= usize::MAX
    }

    /// The number of rings.
    pub open(crate) spec fn rings(&self) -> nat {
        self.rings_n as nat
    }

    /// The number of cells.
    pub open(crate) spec fn total(&self) -> nat {
        self.cells@.len()
    }

    /// Whether `pos` is a cell.
    pub open(crate) spec fn has(&self, pos: CircPosition) -> bool {
        pos.ring < self.rings_n && pos.cell < ring_size(pos.ring as nat)
    }

    /// The place of a cell among the cell records: ring by ring.
    pub open spec fn index_of(pos: CircPosition) -> int {
        ring_start(pos.ring as nat) + pos.cell
    }

    /// The record of the cell at `pos`.
    pub open(crate) spec fn at(&self, pos: CircPosition) -> CircCell {
        self.cells@[Self::index_of(pos)]
    }

    /// Whether the cells of so many rings can be counted in a machine
    /// word, as `new` asks.
    pub fn rings_fit(rings_n: usize) -> (fits: bool)
        ensures
            fits == (ring_start(rings_n as nat) <= usize::MAX),
    {
        if rings_n == 0 {
            return true;
        }
        let wide = rings_n as u128;
        if wide > 0x2_0000_0000 {
            proof {
                lemma_ring_end_wide((rings_n - 1) as nat);
                let inner = (rings_n - 1) as int;
                assert(usize::MAX <= 0xFFFF_FFFF_FFFF_FFFF);
                assert(inner * (inner + 1) >= 0x2_0000_0000 * 0x2_0000_0000) by (nonlinear_arith)
                    requires
                        inner >= 0x2_0000_0000,
                ;
            }
            return false;
        }
        let mut size: usize = 1;
        let mut end: usize = 1;
        let mut ring: usize = 1;
        while ring < rings_n
            invariant
                1 <= ring <= rings_n,
                size == ring_size((ring - 1) as nat),
                end == ring_end((ring - 1) as nat),
            decreases rings_n - ring,
        {
            proof {
                lemma_ring((ring - 1) as nat);
                lemma_ring(ring as nat);
                lemma_ring_ends((ring - 1) as nat, ring as nat);
                if ring < rings_n - 1 {
                    lemma_ring_ends(ring as nat, (rings_n - 1) as nat);
                }
            }
            let Some(next_size) = next_ring_size(ring, size) else {
                return false;
            };
            if next_size > usize::MAX - end {
                return false;
            }
            size = next_size;
            end = end + next_size;
            ring += 1;
        }
        true
    }

    /// A grid of `rings_n` rings without passages.
    pub fn new(rings_n: usize) -> (grid: Self)
        requires
            ring_start(rings_n as nat) <= usize::MAX,
        ensures
            grid.valid(),
            grid.rings() == rings_n,
            grid.links() == Set::<(Position2d, Position2d)>::empty(),
            grid.links_n() == 0,
            is_connected(&grid),
    {
        let (ring_end_inds, cells) = Self::make_rings(rings_n);
        let grid = CircGrid { rings_n, ring_end_inds, cells };
        proof {
            grid.lemma_fresh();
            grid.lemma_connected();
        }
        grid
    }

    /// No cell records a passage.
    pub open(crate) spec fn is_fresh(&self) -> bool {
        forall|i: int| 0 <= i < self.cells@.len() ==> (#[trigger] self.cells@[i]).passages() == 0
    }

    /// The end of each of `rings_n` rings among the cell records, and as
    /// many records without passages as the rings have cells.
    pub fn make_rings(rings_n: usize) -> (rings: (Vec<usize>, Vec<CircCell>))
        requires
            ring_start(rings_n as nat) <= usize::MAX,
        ensures
            rings.0@.len() == rings_n,
            forall|ring: int|
                0 <= ring < rings_n ==> #[trigger] rings.0@[ring] == ring_end(ring as nat),
            rings.1@.len() == ring_start(rings_n as nat),
            forall|i: int| 0 <= i < rings.1@.len() ==> (#[trigger] rings.1@[i]).passages() == 0,
    {
        let mut rings_end_ind: Vec<usize> = vec![1; rings_n];
        // Calculate the number of cells in each ring.
        let mut ring_ind: usize = 1;
        while ring_ind < rings_n
            invariant
                1 <= ring_ind,
                rings_end_ind@.len() == rings_n,
                ring_start(rings_n as nat) <= usize::MAX,
                forall|ring: int|
                    0 <= ring < ring_ind && ring < rings_n ==> #[trigger] rings_end_ind@[ring]
                        == ring_size(ring as nat),
                forall|ring: int|
                    ring_ind <= ring < rings_n ==> #[trigger] rings_end_ind@[ring] == 1,
            decreases rings_n - ring_ind,
        {
            let last_ring_cells_n = rings_end_ind[ring_ind - 1];
            proof {
                lemma_ring((ring_ind - 1) as nat);
                lemma_ring_ends(ring_ind as nat, rings_n as nat);
                lemma_ring_ends((ring_ind - 1) as nat, ring_ind as nat);
            }
            // Make the arc length of each cell close to the interval
            // between two rings.
            let ring_cells_n = next_ring_size(ring_ind, last_ring_cells_n).unwrap();
            rings_end_ind.set(ring_ind, ring_cells_n);
            ring_ind += 1;
        }
        // Accumulate the number of cells before each ring.
        let mut ring_ind: usize = 1;
        while ring_ind < rings_n
            invariant
                1 <= ring_ind,
                rings_end_ind@.len() == rings_n,
                ring_start(rings_n as nat) <= usize::MAX,
                forall|ring: int|
                    0 <= ring < ring_ind && ring < rings_n ==> #[trigger] rings_end_ind@[ring]
                        == ring_end(ring as nat),
                forall|ring: int|
                    ring_ind <= ring < rings_n ==> #[trigger] rings_end_ind@[ring] == ring_size(
                        ring as nat,
                    ),
            decreases rings_n - ring_ind,
        {
            proof {
                lemma_ring_ends(ring_ind as nat, rings_n as nat);
            }
            let end = rings_end_ind[ring_ind] + rings_end_ind[ring_ind - 1];
            rings_end_ind.set(ring_ind, end);
            ring_ind += 1;
        }
        let total = if rings_n == 0 {
            0
        } else {
            rings_end_ind[rings_n - 1]
        };
        let cells = vec![CircCell { is_connect_inward: false, is_connect_clockwise: false }; total];
        (rings_end_ind, cells)
    }

    /// The number of cells in a ring, if there is such a ring.
    pub fn ring_cells_n(&self, ring: usize) -> (cells_n: Option<usize>)
        requires
            self.wf(),
        ensures
            cells_n == if ring < self.rings() {
                Some(ring_size(ring as nat) as usize)
            } else {
                None
            },
            cells_n is Some ==> cells_n->0 == ring_size(ring as nat),
    {
        if ring < self.ring_end_inds.len() {
            proof {
                lemma_ring(ring as nat);
            }
            let ring_start = if ring > 0 {
                self.ring_end_inds[ring - 1]
            } else {
                0
            };
            Some(self.ring_end_inds[ring] - ring_start)
        } else {
            None
        }
    }

    /// The place of `pos` among the cell records, if it is a cell.
    pub fn pos_to_ind(&self, pos: &CircPosition) -> (ind: Option<usize>)
        requires
            self.wf(),
        ensures
            ind is Some <==> self.has(*pos),
            ind is Some ==> ind->0 == Self::index_of(*pos) && ind->0 < self.total(),
    {
        if pos.ring >= self.rings_n {
            return None;
        }
        proof {
            lemma_ring(pos.ring as nat);
            if pos.ring + 1 < self.rings_n {
                lemma_ring_ends(pos.ring as nat, (self.rings_n - 1) as nat);
            }
        }
        let ring_start = if pos.ring > 0 {
            self.ring_end_inds[pos.ring - 1]
        } else {
            0
        };
        if pos.cell < self.ring_end_inds[pos.ring] - ring_start {
            Some(ring_start + pos.cell)
        } else {
            None
        }
    }

    /// The cell at a place among the cell records, if there is such a
    /// place.
    pub fn ind_to_pos(&self, ind: usize) -> (pos: Option<CircPosition>)
        requires
            self.wf(),
        ensures
            pos is Some <==> ind < self.total(),
            pos is Some ==> self.has(pos->0) && Self::index_of(pos->0) == ind,
    {
        if ind >= self.cells.len() {
            return None;
        }
        // The ring is the first whose end lies beyond the place.
        let mut low: usize = 0;
        let mut high: usize = self.rings_n - 1;
        while low < high
            invariant
                self.wf(),
                low <= high < self.rings_n,
                ind < ring_end(high as nat),
                ring_start(low as nat) <= ind,
            decreases high - low,
        {
            let mid = low + (high - low) / 2;
            if ind < self.ring_end_inds[mid] {
                high = mid;
            } else {
                low = mid + 1;
            }
        }
        proof {
            lemma_ring(low as nat);
        }
        let ring_start = if low > 0 {
            self.ring_end_inds[low - 1]
        } else {
            0
        };
        Some(CircPosition::new(low, ind - ring_start))
    }
}

/// The cells of the first `rings` rings.
pub open spec fn cells_upto(rings: nat) -> Set<Position2d> {
    Set::new(|p: Position2d| p.0 < rings && p.1 < ring_size(p.0 as nat))
}

/// The first `n` positions of a ring.
pub open spec fn ring_cells(ring: nat, n: nat) -> Set<Position2d> {
    Set::new(|p: Position2d| p.0 == ring && p.1 < n)
}

/// The first `n` positions of a ring are `n` positions.
pub proof fn lemma_ring_cells(ring: nat, n: nat)
    requires
        ring <= usize::MAX,
        n <= usize::MAX + 1,
    ensures
        ring_cells(ring, n).finite(),
        ring_cells(ring, n).len() == n,
    decreases n,
{
    if n == 0 {
        assert(ring_cells(ring, n) =~= Set::<Position2d>::empty());
    } else {
        lemma_ring_cells(ring, (n - 1) as nat);
        assert(ring_cells(ring, n) =~= ring_cells(ring, (n - 1) as nat).insert(
            Position2d(ring as usize, (n - 1) as usize),
        ));
    }
}

/// The first `rings` rings have as many cells as lie before the ring that
/// follows them.
pub proof fn lemma_cells_upto(rings: nat)
    requires
        rings <= usize::MAX + 1,
        ring_start(rings) <= usize::MAX,
    ensures
        cells_upto(rings).finite(),
        cells_upto(rings).len() == ring_start(rings),
    decreases rings,
{
    if rings == 0 {
        assert(cells_upto(rings) =~= Set::<Position2d>::empty());
    } else {
        let inner = (rings - 1) as nat;
        lemma_ring(inner);
        if inner > 0 {
            lemma_ring((inner - 1) as nat);
        }
        lemma_cells_upto(inner);
        lemma_ring_cells(inner, ring_size(inner));
        let ring = ring_cells(inner, ring_size(inner));
        assert(cells_upto(rings) =~= cells_upto(inner) + ring);
        assert(cells_upto(inner).disjoint(ring));
        lemma_set_disjoint_lens(cells_upto(inner), ring);
    }
}

impl CircGrid {
    /// The same position by ring and cell.
    pub open spec fn cp(pos: Position2d) -> CircPosition {
        CircPosition { ring: pos.0, cell: pos.1 }
    }

    /// The cell inward of a cell that is not the middle.
    pub open spec fn inward_of(pos: CircPosition) -> CircPosition {
        CircPosition {
            ring: (pos.ring - 1) as usize,
            cell: ((pos.cell as int) / (ring_fan((pos.ring - 1) as nat) as int)) as usize,
        }
    }

    /// The next cell clockwise in the ring.
    pub open spec fn clockwise_of(pos: CircPosition) -> CircPosition {
        CircPosition {
            ring: pos.ring,
            cell: if pos.cell + 1 == ring_size(pos.ring as nat) {
                0
            } else {
                (pos.cell + 1) as usize
            },
        }
    }

    /// The next cell counterclockwise in the ring.
    pub open spec fn counter_of(pos: CircPosition) -> CircPosition {
        CircPosition {
            ring: pos.ring,
            cell: if pos.cell == 0 {
                (ring_size(pos.ring as nat) - 1) as usize
            } else {
                (pos.cell - 1) as usize
            },
        }
    }

    /// One of the cells outward of a cell: the one at place `j` among them.
    pub open spec fn outward_of(pos: CircPosition, j: int) -> CircPosition {
        CircPosition {
            ring: (pos.ring + 1) as usize,
            cell: (pos.cell * ring_fan(pos.ring as nat) + j) as usize,
        }
    }

    /// The cells next to the cell `pos` in direction `dir`: one cell inward,
    /// clockwise and counterclockwise of every cell but the middle, and one or
    /// more outward of every cell but those of the last ring.
    pub open(crate) spec fn neighbor_list(&self, pos: CircPosition, dir: CircDirection) -> Seq<
        CircPosition,
    > {
        if !self.has(pos) {
            Seq::empty()
        } else {
            match dir {
                CircDirection::Inward => if pos.ring > 0 {
                    seq![Self::inward_of(pos)]
                } else {
                    Seq::empty()
                },
                CircDirection::Clockwise => if pos.ring > 0 {
                    seq![Self::clockwise_of(pos)]
                } else {
                    Seq::empty()
                },
                CircDirection::Counterclockwise => if pos.ring > 0 {
                    seq![Self::counter_of(pos)]
                } else {
                    Seq::empty()
                },
                CircDirection::Outward => if pos.ring + 1 < self.rings_n {
                    Seq::new(ring_fan(pos.ring as nat), |j: int| Self::outward_of(pos, j))
                } else {
                    Seq::empty()
                },
            }
        }
    }

    /// The same as plain positions.
    pub open(crate) spec fn toward(&self, pos: Position2d, dir: CircDirection) -> Seq<Position2d> {
        self.neighbor_list(Self::cp(pos), dir).map_values(|p: CircPosition| p.pos())
    }

    /// The cells next to `pos`: inward, clockwise, counterclockwise,
    /// outward.
    pub open(crate) spec fn around(&self, pos: Position2d) -> Seq<Position2d> {
        self.toward(pos, CircDirection::Inward) + self.toward(pos, CircDirection::Clockwise)
            + self.toward(pos, CircDirection::Counterclockwise) + self.toward(
            pos,
            CircDirection::Outward,
        )
    }

    /// `b` is the cell inward or the next cell clockwise of the cell `a`.
    pub open(crate) spec fn steps_to(&self, a: CircPosition, b: CircPosition) -> bool {
        self.has(a) && self.has(b) && a.ring > 0 && (b == Self::inward_of(a) || b
            == Self::clockwise_of(a))
    }

    /// The cell `a` records a passage to `b`.
    pub open(crate) spec fn records(&self, a: CircPosition, b: CircPosition) -> bool {
        self.has(a) && self.has(b) && a.ring > 0 && ((b == Self::inward_of(a) && self.at(
            a,
        ).is_connect_inward) || (b == Self::clockwise_of(a) && self.at(a).is_connect_clockwise))
    }

    /// Whether there is a passage between `a` and `b`.
    pub open(crate) spec fn linked(&self, a: Position2d, b: Position2d) -> bool {
        self.records(Self::cp(a), Self::cp(b)) || self.records(Self::cp(b), Self::cp(a))
    }

    /// The passages as pairs of positions, each in both directions.
    pub open(crate) spec fn passages(&self) -> Set<(Position2d, Position2d)> {
        Set::new(|pair: (Position2d, Position2d)| self.linked(pair.0, pair.1))
    }

    /// The number of passages that the cells record.
    pub open(crate) spec fn passages_n(&self) -> nat {
        passages_below(self.cells@, self.cells@.len())
    }

    /// The records fit the rings, the middle cell records no passage, and
    /// the passages are as many as the records count: the relation holds
    /// two ordered pairs for each.
    pub open(crate) spec fn inv(&self) -> bool {
        &&& self.wf()
        &&& self.cells@.len() <= usize::MAX
        &&& self.cells@.len() > 0 ==> !self.cells@[0].is_connect_inward
            && !self.cells@[0].is_connect_clockwise
        &&& self.passages().finite()
        &&& self.passages().len() == 2 * self.passages_n()
    }

    /// The cells of a ring and of the rings inside it can be counted in a
    /// machine word.
    pub proof fn lemma_ring_fits(&self, ring: nat)
        requires
            self.wf(),
            ring < self.rings(),
        ensures
            1 <= ring_size(ring) <= ring_end(ring),
            ring_start(ring) + ring_size(ring) == ring_end(ring),
            ring_end(ring) <= ring_start(self.rings()) <= usize::MAX,
            ring >= 1 ==> ring_size(ring) >= 6,
    {
        lemma_ring(ring);
        if ring >= 1 {
            lemma_ring_six(ring);
            lemma_ring_ends((ring - 1) as nat, ring);
        }
        if ring + 1 < self.rings() {
            lemma_ring_ends(ring, (self.rings() - 1) as nat);
        }
    }

    /// The cell inward and the cells outward of a cell are cells, and each
    /// of the latter has the cell inward of it.
    pub proof fn lemma_fan(&self, pos: CircPosition, j: int)
        requires
            self.wf(),
            self.has(pos),
        ensures
            pos.ring > 0 ==> self.has(Self::inward_of(pos)) && exists|k: int|
                0 <= k < ring_fan((pos.ring - 1) as nat) && #[trigger] Self::outward_of(
                    Self::inward_of(pos),
                    k,
                ) == pos,
            pos.ring + 1 < self.rings() && 0 <= j < ring_fan(pos.ring as nat) ==> self.has(
                Self::outward_of(pos, j),
            ) && Self::inward_of(Self::outward_of(pos, j)) == pos,
    {
        self.lemma_ring_fits(pos.ring as nat);
        if pos.ring > 0 {
            let inner = (pos.ring - 1) as nat;
            lemma_ring(inner);
            self.lemma_ring_fits(inner);
            let fan = ring_fan(inner) as int;
            let size = ring_size(inner) as int;
            let cell = pos.cell as int;
            lemma_fundamental_div_mod(cell, fan);
            let q = cell / fan;
            let r = cell % fan;
            assert(0 <= q < size) by (nonlinear_arith)
                requires
                    cell == fan * q + r,
                    0 <= r < fan,
                    0 <= cell < size * fan,
            ;
            assert(q * fan == fan * q) by (nonlinear_arith);
            assert(Self::outward_of(Self::inward_of(pos), r) == pos);
        }
        if pos.ring + 1 < self.rings_n && 0 <= j < ring_fan(pos.ring as nat) {
            let ring = pos.ring as nat;
            lemma_ring(ring);
            let fan = ring_fan(ring) as int;
            let size = ring_size(ring) as int;
            let cell = pos.cell as int;
            assert(0 <= cell * fan + j < size * fan) by (nonlinear_arith)
                requires
                    0 <= cell < size,
                    0 <= j < fan,
            ;
            self.lemma_ring_fits(ring + 1);
            lemma_fundamental_div_mod_converse(cell * fan + j, fan, cell, j);
            assert(Self::outward_of(pos, j).cell == cell * fan + j);
            assert(Self::outward_of(pos, j).ring == ring + 1);
        }
    }

    /// The next cell clockwise and the next cell counterclockwise of a cell
    /// that is not the middle are cells of its ring, different from it, and
    /// each leads back by the other.
    pub proof fn lemma_ring_turn(&self, pos: CircPosition)
        requires
            self.wf(),
            self.has(pos),
            pos.ring > 0,
        ensures
            self.has(Self::clockwise_of(pos)),
            self.has(Self::counter_of(pos)),
            Self::clockwise_of(pos) != pos,
            Self::counter_of(pos) != pos,
            Self::clockwise_of(Self::clockwise_of(pos)) != pos,
            Self::clockwise_of(Self::counter_of(pos)) == pos,
            Self::counter_of(Self::clockwise_of(pos)) == pos,
    {
        self.lemma_ring_fits(pos.ring as nat);
    }

    /// `b` is next to `a` exactly if one of them is the cell inward or the
    /// next cell clockwise of the other.
    pub proof fn lemma_around(&self, a: Position2d, b: Position2d)
        requires
            self.wf(),
        ensures
            self.around(a).contains(b) <==> self.steps_to(Self::cp(a), Self::cp(b))
                || self.steps_to(Self::cp(b), Self::cp(a)),
    {
        let from = Self::cp(a);
        let to = Self::cp(b);
        let l1 = self.toward(a, CircDirection::Inward);
        let l2 = self.toward(a, CircDirection::Clockwise);
        let l3 = self.toward(a, CircDirection::Counterclockwise);
        let l4 = self.toward(a, CircDirection::Outward);
        lemma_concat_contains(l1, l2, b);
        lemma_concat_contains(l1 + l2, l3, b);
        lemma_concat_contains(l1 + l2 + l3, l4, b);
        assert(to.pos() == b && from.pos() == a);
        if self.has(from) {
            self.lemma_fan(from, 0);
            if from.ring > 0 {
                self.lemma_ring_turn(from);
                assert(l1[0] == Self::inward_of(from).pos());
                assert(l2[0] == Self::clockwise_of(from).pos());
                assert(l3[0] == Self::counter_of(from).pos());
            }
            if self.has(to) && to.ring > 0 {
                self.lemma_ring_turn(to);
                self.lemma_fan(to, 0);
            }
            if l1.contains(b) {
                let i = choose|i: int| 0 <= i < l1.len() && l1[i] == b;
                assert(to == Self::inward_of(from));
            }
            if l2.contains(b) {
                let i = choose|i: int| 0 <= i < l2.len() && l2[i] == b;
                assert(to == Self::clockwise_of(from));
            }
            if l3.contains(b) {
                let i = choose|i: int| 0 <= i < l3.len() && l3[i] == b;
                assert(to == Self::counter_of(from));
            }
            if l4.contains(b) {
                let i = choose|i: int| 0 <= i < l4.len() && l4[i] == b;
                self.lemma_fan(from, i);
                assert(to == Self::outward_of(from, i));
            }
            if self.steps_to(to, from) {
                if from == Self::inward_of(to) {
                    let k = choose|k: int|
                        0 <= k < ring_fan((to.ring - 1) as nat) && #[trigger] Self::outward_of(
                            Self::inward_of(to),
                            k,
                        ) == to;
                    assert(l4[k] == b);
                } else {
                    assert(l3[0] == b);
                }
            }
        }
    }

    /// A passage runs between neighbours.
    pub proof fn lemma_linked(&self, a: Position2d, b: Position2d)
        requires
            self.wf(),
            self.linked(a, b),
        ensures
            self.around(a).contains(b),
            self.linked(b, a),
    {
        self.lemma_around(a, b);
    }

    /// Being next to each other is mutual, and holds of two different cells
    /// only.
    pub proof fn lemma_around_back(&self, a: Position2d, b: Position2d)
        requires
            self.wf(),
            self.around(a).contains(b),
        ensures
            self.has(Self::cp(a)),
            self.has(Self::cp(b)),
            a != b,
            self.around(b).contains(a),
    {
        self.lemma_around(a, b);
        self.lemma_around(b, a);
        let from = Self::cp(a);
        let to = Self::cp(b);
        assert(to.pos() == b && from.pos() == a);
        if self.steps_to(from, to) {
            self.lemma_ring_turn(from);
        } else {
            self.lemma_ring_turn(to);
        }
    }

    /// The positions next to the cell `pos` in direction `dir`, to be
    /// handed out one by one.
    pub fn neighbor_pos_iter(&self, pos: &CircPosition, dir: CircDirection) -> (iter:
        CircCellPosIter)
        requires
            self.wf(),
        ensures
            iter.remaining() == self.neighbor_list(*pos, dir),
    {
        if self.pos_to_ind(pos).is_some() {
            let ring_cells_n = self.ring_cells_n(pos.ring).unwrap();
            let last_ring_cells_n = if pos.ring > 0 {
                self.ring_cells_n(pos.ring - 1).unwrap()
            } else {
                0
            };
            proof {
                self.lemma_fan(*pos, 0);
                self.lemma_ring_fits(pos.ring as nat);
                lemma_ring(pos.ring as nat);
                if pos.ring > 0 {
                    lemma_ring((pos.ring - 1) as nat);
                    self.lemma_ring_fits((pos.ring - 1) as nat);
                }
                if pos.ring + 1 < self.rings_n {
                    self.lemma_ring_fits((pos.ring + 1) as nat);
                }
            }
            match dir {
                CircDirection::Inward => if pos.ring > 0 {
                    proof {
                        let fan = ring_fan((pos.ring - 1) as nat) as int;
                        let size = last_ring_cells_n as int;
                        if ring_cells_n <= last_ring_cells_n {
                            assert(fan == 1) by (nonlinear_arith)
                                requires
                                    size * fan <= size,
                                    size >= 1,
                                    fan >= 1,
                            ;
                        }
                    }
                    let inner_cell = if ring_cells_n > last_ring_cells_n {
                        let self_inner_ratio = ring_cells_n / last_ring_cells_n;
                        pos.cell / self_inner_ratio
                    } else {
                        pos.cell
                    };
                    assert(last_ring_cells_n == ring_size((pos.ring - 1) as nat));
                    assert(ring_cells_n == ring_size(pos.ring as nat));
                    assert(ring_cells_n / last_ring_cells_n == ring_fan((pos.ring - 1) as nat));
                    proof {
                        let fan = ring_fan((pos.ring - 1) as nat) as int;
                        vstd::arithmetic::div_mod::lemma_div_nonincreasing(pos.cell as int, fan);
                        vstd::arithmetic::div_mod::lemma_div_pos_is_pos(pos.cell as int, fan);
                        if fan == 1 {
                            vstd::arithmetic::div_mod::lemma_div_basics(pos.cell as int);
                        }
                    }
                    assert(inner_cell == Self::inward_of(*pos).cell);
                    let iter = CircCellPosIter::once(pos.ring - 1, inner_cell);
                    assert(iter.remaining() == self.neighbor_list(*pos, dir));
                    iter
                } else {
                    CircCellPosIter::empty()
                },
                CircDirection::Clockwise => if pos.ring > 0 {
                    let iter = CircCellPosIter::once(
                        pos.ring,
                        if pos.cell + 1 == ring_cells_n {
                            0
                        } else {
                            pos.cell + 1
                        },
                    );
                    assert(iter.remaining() == self.neighbor_list(*pos, dir));
                    iter
                } else {
                    CircCellPosIter::empty()
                },
                CircDirection::Counterclockwise => if pos.ring > 0 {
                    let iter = CircCellPosIter::once(
                        pos.ring,
                        if pos.cell == 0 {
                            ring_cells_n - 1
                        } else {
                            pos.cell - 1
                        },
                    );
                    assert(iter.remaining() == self.neighbor_list(*pos, dir));
                    iter
                } else {
                    CircCellPosIter::empty()
                },
                CircDirection::Outward => {
                    let next_ring_cells_n = if pos.ring < usize::MAX {
                        self.ring_cells_n(pos.ring + 1)
                    } else {
                        None
                    };
                    if let Some(next_ring_cells_n) = next_ring_cells_n {
                        let outer_self_ratio = next_ring_cells_n / ring_cells_n;
                        proof {
                            let fan = outer_self_ratio as int;
                            let size = ring_cells_n as int;
                            let cell = pos.cell as int;
                            assert(0 <= cell * fan && cell * fan + fan <= size * fan)
                                by (nonlinear_arith)
                                requires
                                    0 <= cell < size,
                                    0 < fan,
                            ;
                        }
                        let cell_start = pos.cell * outer_self_ratio;
                        let iter = CircCellPosIter::cell_range(
                            pos.ring + 1,
                            cell_start..(cell_start + outer_self_ratio),
                        );
                        proof {
                            let list = self.neighbor_list(*pos, dir);
                            assert(outer_self_ratio == ring_fan(pos.ring as nat));
                            assert(list.len() == outer_self_ratio);
                            assert(iter.remaining().len() == outer_self_ratio);
                            assert forall|j: int| 0 <= j < list.len() implies iter.remaining()[j]
                                == list[j] by {
                                assert(list[j] == Self::outward_of(*pos, j));
                            }
                            assert(iter.remaining() =~= list);
                        }
                        iter
                    } else {
                        let iter = CircCellPosIter::empty();
                        assert(iter.remaining() == self.neighbor_list(*pos, dir));
                        iter
                    }
                },
            }
        } else {
            CircCellPosIter::empty()
        }
    }
}

impl CircGrid {
    /// Different cells have different places among the cell records.
    pub proof fn lemma_index_unique(&self, a: CircPosition, b: CircPosition)
        requires
            self.wf(),
            self.has(a),
            self.has(b),
            Self::index_of(a) == Self::index_of(b),
        ensures
            a == b,
    {
        lemma_ring(a.ring as nat);
        lemma_ring(b.ring as nat);
        if a.ring < b.ring {
            lemma_ring_ends(a.ring as nat, b.ring as nat);
        } else if b.ring < a.ring {
            lemma_ring_ends(b.ring as nat, a.ring as nat);
        }
    }

    /// The record of the cell at `pos`, if it is a cell.
    pub(crate) fn cell(&self, pos: &CircPosition) -> (found: Option<&CircCell>)
        requires
            self.wf(),
        ensures
            found is Some <==> self.has(*pos),
            found is Some ==> *found->0 == self.at(*pos),
    {
        match self.pos_to_ind(pos) {
            Some(ind) => Some(&self.cells[ind]),
            None => None,
        }
    }

    /// Records the passage from the cell `owner`, which is not the middle,
    /// to the cell inward of it (for `inward`) or to the next cell clockwise.
    fn open_own(&mut self, owner: &CircPosition, inward: bool)
        requires
            old(self).inv(),
            old(self).has(*owner),
            owner.ring > 0,
        ensures
            final(self).inv(),
            final(self).rings() == old(self).rings(),
            final(self).passages() == with_pair(
                old(self).passages(),
                owner.pos(),
                (if inward {
                    Self::inward_of(*owner)
                } else {
                    Self::clockwise_of(*owner)
                }).pos(),
            ),
            final(self).passages_n() == old(self).passages_n() + if !old(self).passages().contains(
                (
                    owner.pos(),
                    (if inward {
                        Self::inward_of(*owner)
                    } else {
                        Self::clockwise_of(*owner)
                    }).pos(),
                ),
            ) {
                1nat
            } else {
                0nat
            },
    {
        let ghost before = *self;
        let ghost target = if inward {
            Self::inward_of(*owner)
        } else {
            Self::clockwise_of(*owner)
        };
        let ind = self.pos_to_ind(owner).unwrap();
        let mut cell = self.cells[ind];
        if inward {
            cell.is_connect_inward = true;
        } else {
            cell.is_connect_clockwise = true;
        }
        proof {
            lemma_passages_update(self.cells@, ind as int, cell, self.cells@.len());
            self.lemma_ring_fits(owner.ring as nat);
            self.lemma_ring_turn(*owner);
            self.lemma_fan(*owner, 0);
        }
        self.cells.set(ind, cell);
        proof {
            assert(self.wf());
            assert forall|x: CircPosition| self.has(x) implies #[trigger] self.at(x) == if x
                == *owner {
                cell
            } else {
                before.at(x)
            } by {
                before.lemma_ring_fits(x.ring as nat);
                if x != *owner {
                    if Self::index_of(x) == Self::index_of(*owner) {
                        before.lemma_index_unique(x, *owner);
                    }
                }
            }
            let grown = with_pair(before.passages(), owner.pos(), target.pos());
            assert forall|pair: (Position2d, Position2d)| self.passages().contains(pair)
                == grown.contains(pair) by {
                let a = Self::cp(pair.0);
                let b = Self::cp(pair.1);
                assert(a.pos() == pair.0 && b.pos() == pair.1);
                if self.has(a) && self.has(b) {
                    assert(self.at(a) == if a == *owner {
                        cell
                    } else {
                        before.at(a)
                    });
                    assert(self.at(b) == if b == *owner {
                        cell
                    } else {
                        before.at(b)
                    });
                    assert(self.records(a, b) == (before.records(a, b) || (a == *owner && b
                        == target)));
                    assert(self.records(b, a) == (before.records(b, a) || (b == *owner && a
                        == target)));
                }
            }
            assert(self.passages() =~= grown);
            assert(before.linked(owner.pos(), target.pos()) == before.records(*owner, target)) by {
                assert(Self::cp(owner.pos()) == *owner && Self::cp(target.pos()) == target);
            }
            assert(crate::graph::symmetric(before.passages()));
            crate::graph::lemma_with_pair_len(before.passages(), owner.pos(), target.pos());
            assert(self.has(CircPosition { ring: 0, cell: 0 }) || self.cells@.len() == 0) by {
                if self.rings_n > 0 {
                    self.lemma_ring_fits(0);
                }
            }
            if self.cells@.len() > 0 {
                assert(Self::index_of(CircPosition { ring: 0, cell: 0 }) == 0);
                assert(self.at(CircPosition { ring: 0, cell: 0 }) == before.at(
                    CircPosition { ring: 0, cell: 0 },
                ));
            }
        }
    }

    /// Appends the neighbours of `pos` in direction `dir`.
    fn push_list(&self, pos: &Position2d, dir: CircDirection, neighbors: &mut Vec<Position2d>)
        requires
            self.wf(),
        ensures
            final(neighbors)@ == old(neighbors)@ + self.toward(*pos, dir),
    {
        let mut iter = self.neighbor_pos_iter(&CircPosition::new(pos.0, pos.1), dir);
        let ghost list = self.neighbor_list(Self::cp(*pos), dir);
        let ghost mut taken: int = 0;
        assert(neighbors@ =~= old(neighbors)@ + self.toward(*pos, dir).subrange(0, 0));
        assert(iter.remaining() =~= list.subrange(0, list.len() as int));
        loop
            invariant
                0 <= taken <= list.len(),
                list == self.neighbor_list(Self::cp(*pos), dir),
                iter.remaining() == list.subrange(taken, list.len() as int),
                neighbors@ == old(neighbors)@ + self.toward(*pos, dir).subrange(0, taken),
            ensures
                neighbors@ == old(neighbors)@ + self.toward(*pos, dir),
            decreases list.len() - taken,
        {
            match iter.next() {
                Some(next) => {
                    neighbors.push(Position2d(next.ring, next.cell));
                    proof {
                        assert(next == list[taken]);
                        assert(iter.remaining() =~= list.subrange(taken + 1, list.len() as int));
                        assert(neighbors@ =~= old(neighbors)@ + self.toward(*pos, dir).subrange(
                            0,
                            taken + 1,
                        ));
                        taken = taken + 1;
                    }
                },
                None => {
                    proof {
                        assert(taken == list.len());
                        assert(self.toward(*pos, dir).subrange(0, taken) =~= self.toward(
                            *pos,
                            dir,
                        ));
                    }
                    break ;
                },
            }
        }
    }

    /// Whether `to` is among the neighbours of `from` in direction `dir`.
    fn is_toward(&self, from: &CircPosition, to: &CircPosition, dir: CircDirection) -> (found:
        bool)
        requires
            self.wf(),
        ensures
            found == self.neighbor_list(*from, dir).contains(*to),
    {
        let mut iter = self.neighbor_pos_iter(from, dir);
        let ghost list = self.neighbor_list(*from, dir);
        let ghost mut taken: int = 0;
        assert(iter.remaining() =~= list.subrange(0, list.len() as int));
        loop
            invariant
                0 <= taken <= list.len(),
                list == self.neighbor_list(*from, dir),
                iter.remaining() == list.subrange(taken, list.len() as int),
                forall|j: int| 0 <= j < taken ==> list[j] != *to,
            decreases list.len() - taken,
        {
            match iter.next() {
                Some(next) => {
                    proof {
                        assert(next == list[taken]);
                        assert(iter.remaining() =~= list.subrange(taken + 1, list.len() as int));
                    }
                    if next.ring == to.ring && next.cell == to.cell {
                        return true;
                    }
                    proof {
                        taken = taken + 1;
                    }
                },
                None => {
                    return false;
                },
            }
        }
    }

    /// The first direction in which `to` is a neighbour of `from`, if it
    /// is a neighbour.
    fn find_dir(&self, from: &CircPosition, to: &CircPosition) -> (found: Option<CircDirection>)
        requires
            self.wf(),
        ensures
            found is Some ==> self.neighbor_list(*from, found->0).contains(*to),
            found is Some <==> self.around(from.pos()).contains(to.pos()),
    {
        let dirs = CircDirection::all_dirs();
        let mut i: usize = 0;
        while i < 4
            invariant
                i <= 4,
                self.wf(),
                dirs@ == seq![
                    CircDirection::Inward,
                    CircDirection::Clockwise,
                    CircDirection::Counterclockwise,
                    CircDirection::Outward,
                ],
                forall|j: int|
                    0 <= j < i ==> !self.neighbor_list(*from, #[trigger] dirs@[j]).contains(*to),
            decreases 4 - i,
        {
            if self.is_toward(from, to, dirs[i]) {
                proof {
                    self.lemma_toward(*from, *to, dirs@[i as int]);
                    self.lemma_toward(*from, *to, CircDirection::Inward);
                    self.lemma_toward(*from, *to, CircDirection::Clockwise);
                    self.lemma_toward(*from, *to, CircDirection::Counterclockwise);
                    self.lemma_toward(*from, *to, CircDirection::Outward);
                }
                return Some(dirs[i]);
            }
            i += 1;
        }
        proof {
            assert(!self.neighbor_list(*from, dirs@[0]).contains(*to));
            assert(!self.neighbor_list(*from, dirs@[1]).contains(*to));
            assert(!self.neighbor_list(*from, dirs@[2]).contains(*to));
            assert(!self.neighbor_list(*from, dirs@[3]).contains(*to));
            self.lemma_toward(*from, *to, CircDirection::Inward);
            self.lemma_toward(*from, *to, CircDirection::Clockwise);
            self.lemma_toward(*from, *to, CircDirection::Counterclockwise);
            self.lemma_toward(*from, *to, CircDirection::Outward);
        }
        None
    }

    /// A position is among the neighbours in a direction exactly as a
    /// plain position, and the neighbours all round are those of the four
    /// directions.
    proof fn lemma_toward(&self, from: CircPosition, to: CircPosition, dir: CircDirection)
        ensures
            self.toward(from.pos(), dir).contains(to.pos()) <==> self.neighbor_list(
                from,
                dir,
            ).contains(to),
            self.around(from.pos()).contains(to.pos()) <==> {
                ||| self.toward(from.pos(), CircDirection::Inward).contains(to.pos())
                ||| self.toward(from.pos(), CircDirection::Clockwise).contains(to.pos())
                ||| self.toward(from.pos(), CircDirection::Counterclockwise).contains(to.pos())
                ||| self.toward(from.pos(), CircDirection::Outward).contains(to.pos())
            },
    {
        let list = self.neighbor_list(from, dir);
        let plain = self.toward(from.pos(), dir);
        assert(Self::cp(from.pos()) == from);
        if plain.contains(to.pos()) {
            let i = choose|i: int| 0 <= i < plain.len() && plain[i] == to.pos();
            assert(list[i].pos() == to.pos());
            assert(list[i] == to);
        }
        if list.contains(to) {
            let i = choose|i: int| 0 <= i < list.len() && list[i] == to;
            assert(plain[i] == to.pos());
        }
        let l1 = self.toward(from.pos(), CircDirection::Inward);
        let l2 = self.toward(from.pos(), CircDirection::Clockwise);
        let l3 = self.toward(from.pos(), CircDirection::Counterclockwise);
        let l4 = self.toward(from.pos(), CircDirection::Outward);
        lemma_concat_contains(l1, l2, to.pos());
        lemma_concat_contains(l1 + l2, l3, to.pos());
        lemma_concat_contains(l1 + l2 + l3, l4, to.pos());
    }
}

impl Grid2d for CircGrid {
    type Frame = usize;

    open(crate) spec fn valid(&self) -> bool {
        self.inv()
    }

    open(crate) spec fn frame(&self) -> usize {
        self.rings_n
    }

    open(crate) spec fn cells(&self) -> Set<Position2d> {
        cells_upto(self.rings_n as nat)
    }

    open(crate) spec fn neighbors_of(&self, pos: Position2d) -> Seq<Position2d> {
        self.around(pos)
    }

    open(crate) spec fn links(&self) -> Set<(Position2d, Position2d)> {
        self.passages()
    }

    open(crate) spec fn links_n(&self) -> nat {
        self.passages_n()
    }

    proof fn lemma_graph(&self) {
        lemma_cells_upto(self.rings_n as nat);
        assert forall|a: Position2d, b: Position2d| #[trigger]
            self.neighbors_of(a).contains(b) implies self.cells().contains(a)
            && self.cells().contains(b) && a != b && self.neighbors_of(b).contains(a) by {
            self.lemma_around_back(a, b);
        }
        assert forall|a: Position2d, b: Position2d| #[trigger]
            self.links().contains((a, b)) implies self.neighbors_of(a).contains(b)
            && self.links().contains((b, a)) by {
            self.lemma_linked(a, b);
        }
    }

    proof fn lemma_frame(&self, other: &Self) {
    }

    fn cells_n(&self) -> (n: usize) {
        proof {
            lemma_cells_upto(self.rings_n as nat);
        }
        if self.rings_n == 0 {
            0
        } else {
            self.ring_end_inds[self.rings_n - 1]
        }
    }

    fn random_cell_pos(&self, rng: &mut RandomSource) -> (picked: Option<Position2d>) {
        proof {
            lemma_cells_upto(self.rings_n as nat);
        }
        match rng.choose_index(self.cells_n()) {
            Some(cell_ind) => {
                let pos = self.ind_to_pos(cell_ind).unwrap();
                assert(self.cells().contains(pos.pos()));
                Some(Position2d(pos.ring, pos.cell))
            },
            None => {
                proof {
                    self.cells().lemma_len0_is_empty();
                }
                None
            },
        }
    }

    fn all_cells_pos_set(&self) -> (all: PosSet) {
        let mut all = PosSet::new();
        let mut ring: usize = 0;
        assert(all@ =~= cells_upto(0));
        while ring < self.rings_n
            invariant
                self.wf(),
                ring <= self.rings_n,
                all.wf(),
                all@ == cells_upto(ring as nat),
            decreases self.rings_n - ring,
        {
            let ring_cells_n = self.ring_cells_n(ring).unwrap();
            let mut cell: usize = 0;
            assert(all@ =~= cells_upto(ring as nat) + ring_cells(ring as nat, 0));
            while cell < ring_cells_n
                invariant
                    self.wf(),
                    ring < self.rings_n,
                    ring_cells_n == ring_size(ring as nat),
                    cell <= ring_cells_n,
                    all.wf(),
                    all@ == cells_upto(ring as nat) + ring_cells(ring as nat, cell as nat),
                decreases ring_cells_n - cell,
            {
                all.insert(Position2d(ring, cell));
                cell += 1;
                assert(all@ =~= cells_upto(ring as nat) + ring_cells(ring as nat, cell as nat));
            }
            ring += 1;
            assert(all@ =~= cells_upto(ring as nat));
        }
        all
    }

    fn append_neighbors(&self, pos: &Position2d, neighbors: &mut Vec<Position2d>) {
        self.push_list(pos, CircDirection::Inward, neighbors);
        self.push_list(pos, CircDirection::Clockwise, neighbors);
        self.push_list(pos, CircDirection::Counterclockwise, neighbors);
        self.push_list(pos, CircDirection::Outward, neighbors);
        assert(neighbors@ =~= old(neighbors)@ + self.around(*pos));
    }

    fn connect_to(&mut self, from: &Position2d, to: &Position2d) -> (connected: bool) {
        let from = CircPosition::new(from.0, from.1);
        let to = CircPosition::new(to.0, to.1);
        let Some(dir) = self.find_dir(&from, &to) else {
            return false;
        };
        proof {
            self.lemma_around(from.pos(), to.pos());
            self.lemma_around_back(from.pos(), to.pos());
            assert(Self::cp(from.pos()) == from && Self::cp(to.pos()) == to);
            let list = self.neighbor_list(from, dir);
            let i = choose|i: int| 0 <= i < list.len() && list[i] == to;
            if from.ring > 0 {
                self.lemma_ring_turn(from);
            }
            if dir == CircDirection::Outward {
                self.lemma_fan(from, i);
            }
            assert(with_pair(self.passages(), to.pos(), from.pos()) =~= with_pair(
                self.passages(),
                from.pos(),
                to.pos(),
            ));
            assert(self.linked(from.pos(), to.pos()) == self.linked(to.pos(), from.pos()));
        }
        match dir {
            CircDirection::Inward => self.open_own(&from, true),
            CircDirection::Clockwise => self.open_own(&from, false),
            CircDirection::Counterclockwise => self.open_own(&to, false),
            CircDirection::Outward => self.open_own(&to, true),
        }
        true
    }
}

impl LayerGrid for CircGrid {
    open(crate) spec fn layer_count(&self) -> nat {
        self.rings_n as nat
    }

    open(crate) spec fn layer_size(&self, layer: nat) -> nat {
        if layer < self.rings_n {
            ring_size(layer)
        } else {
            0
        }
    }

    open(crate) spec fn above(&self, pos: Position2d) -> Seq<Position2d> {
        self.toward(pos, CircDirection::Inward)
    }

    open(crate) spec fn below(&self, pos: Position2d) -> Seq<Position2d> {
        self.toward(pos, CircDirection::Outward)
    }

    proof fn lemma_layers(&self) {
        assert forall|p: Position2d|
            self.cells().contains(p) && p.1 > 0 implies #[trigger] self.neighbors_of(p).contains(
            Position2d(p.0, (p.1 - 1) as usize),
        ) by {
            let q = Position2d(p.0, (p.1 - 1) as usize);
            self.lemma_around(p, q);
            self.lemma_ring_fits(p.0 as nat);
            assert(self.steps_to(Self::cp(q), Self::cp(p)));
        }
        assert forall|p: Position2d, q: Position2d| #[trigger]
            self.below(p).contains(q) implies self.neighbors_of(p).contains(q) && q.0 == p.0 + 1 by {
            self.lemma_toward(Self::cp(p), Self::cp(q), CircDirection::Outward);
            assert(Self::cp(p).pos() == p && Self::cp(q).pos() == q);
            let list = self.neighbor_list(Self::cp(p), CircDirection::Outward);
            let i = choose|i: int| 0 <= i < list.len() && list[i] == Self::cp(q);
            self.lemma_fan(Self::cp(p), i);
        }
        assert forall|p: Position2d|
            self.cells().contains(p) && p.0 + 1 < self.layer_count() implies (
        #[trigger] self.below(p)).len() > 0 by {
            lemma_ring(p.0 as nat);
        }
        assert forall|p: Position2d, r: Position2d, q: Position2d|
            #[trigger] self.below(p).contains(q) && #[trigger] self.below(r).contains(q) implies p
            == r by {
            self.lemma_toward(Self::cp(p), Self::cp(q), CircDirection::Outward);
            self.lemma_toward(Self::cp(r), Self::cp(q), CircDirection::Outward);
            assert(Self::cp(p).pos() == p && Self::cp(q).pos() == q && Self::cp(r).pos() == r);
            let list = self.neighbor_list(Self::cp(p), CircDirection::Outward);
            let i = choose|i: int| 0 <= i < list.len() && list[i] == Self::cp(q);
            self.lemma_fan(Self::cp(p), i);
            let other = self.neighbor_list(Self::cp(r), CircDirection::Outward);
            let j = choose|j: int| 0 <= j < other.len() && other[j] == Self::cp(q);
            self.lemma_fan(Self::cp(r), j);
        }
        assert forall|p: Position2d, q: Position2d| #[trigger]
            self.above(p).contains(q) <==> self.below(q).contains(p) by {
            self.lemma_toward(Self::cp(p), Self::cp(q), CircDirection::Inward);
            self.lemma_toward(Self::cp(q), Self::cp(p), CircDirection::Outward);
            assert(Self::cp(p).pos() == p && Self::cp(q).pos() == q);
            let up = self.neighbor_list(Self::cp(p), CircDirection::Inward);
            let down = self.neighbor_list(Self::cp(q), CircDirection::Outward);
            if up.contains(Self::cp(q)) {
                let i = choose|i: int| 0 <= i < up.len() && up[i] == Self::cp(q);
                self.lemma_fan(Self::cp(p), 0);
                let k = choose|k: int|
                    0 <= k < ring_fan((p.0 - 1) as nat) && #[trigger] Self::outward_of(
                        Self::inward_of(Self::cp(p)),
                        k,
                    ) == Self::cp(p);
                assert(down[k] == Self::cp(p));
            }
            if down.contains(Self::cp(p)) {
                let i = choose|i: int| 0 <= i < down.len() && down[i] == Self::cp(p);
                self.lemma_fan(Self::cp(q), i);
                assert(up[0] == Self::cp(q));
            }
        }
    }

    proof fn lemma_layer_frame(&self, other: &Self) {
        assert forall|p: Position2d| #[trigger] self.below(p) == other.below(p) by {
            assert(self.neighbor_list(Self::cp(p), CircDirection::Outward) =~= other.neighbor_list(
                Self::cp(p),
                CircDirection::Outward,
            ));
        }
        assert forall|p: Position2d| #[trigger] self.above(p) == other.above(p) by {
            assert(self.neighbor_list(Self::cp(p), CircDirection::Inward) =~= other.neighbor_list(
                Self::cp(p),
                CircDirection::Inward,
            ));
        }
    }

    fn layers_n(&self) -> (n: usize) {
        self.rings_n
    }

    fn cells_n_at(&self, layer_ind: usize) -> (n: usize) {
        match self.ring_cells_n(layer_ind) {
            Some(cells_n) => cells_n,
            None => 0,
        }
    }

    fn append_neighbors_upper_layer(&self, pos: &Position2d, neighbors: &mut Vec<Position2d>) {
        self.push_list(pos, CircDirection::Inward, neighbors);
    }

    fn append_neighbors_lower_layer(&self, pos: &Position2d, neighbors: &mut Vec<Position2d>) {
        self.push_list(pos, CircDirection::Outward, neighbors);
    }
}

/// A finished ring maze.
#[derive(Debug)]
pub struct CircMaze {
    pub(crate) grid: CircGrid,
}

impl CircMaze {
    /// The maze's grid is valid.
    pub open(crate) spec fn valid(&self) -> bool {
        self.grid.valid()
    }

    /// The number of rings.
    pub open(crate) spec fn rings(&self) -> nat {
        self.grid.rings()
    }

    /// The cells.
    pub open(crate) spec fn cells(&self) -> Set<Position2d> {
        self.grid.cells()
    }

    /// The passages, each as a pair of positions in both directions.
    pub open(crate) spec fn links(&self) -> Set<(Position2d, Position2d)> {
        self.grid.links()
    }

    /// The number of passages.
    pub open(crate) spec fn links_n(&self) -> nat {
        self.grid.links_n()
    }

    /// The finished maze of a grid.
    pub fn new(grid: CircGrid) -> (maze: Self)
        ensures
            maze.valid() == grid.valid(),
            maze.rings() == grid.rings(),
            maze.cells() == grid.cells(),
            maze.links() == grid.links(),
            maze.links_n() == grid.links_n(),
    {
        CircMaze { grid }
    }

    /// The number of rings.
    pub fn rings_n(&self) -> (n: usize)
        ensures
            n == self.rings(),
    {
        self.grid.rings_n
    }

    /// The number of cells in a ring, if there is such a ring.
    pub fn ring_cells_n(&self, ring: usize) -> (cells_n: Option<usize>)
        requires
            self.valid(),
        ensures
            cells_n is Some <==> ring < self.rings(),
            cells_n is Some ==> cells_n->0 == ring_size(ring as nat),
    {
        self.grid.ring_cells_n(ring)
    }

    /// Whether there is a passage from the cell `pos` to the cell inward of
    /// it.
    pub fn is_connect_inward(&self, pos: &CircPosition) -> (open: bool)
        requires
            self.valid(),
        ensures
            open == (self.cells().contains(pos.pos()) && pos.ring > 0 && self.links().contains(
                (pos.pos(), CircGrid::inward_of(*pos).pos()),
            )),
    {
        proof {
            self.grid.lemma_open(*pos);
        }
        match self.grid.cell(pos) {
            Some(cell) => cell.is_connect_inward,
            None => false,
        }
    }

    /// Whether there is a passage from the cell `pos` to the next cell
    /// clockwise.
    pub fn is_connect_clockwise(&self, pos: &CircPosition) -> (open: bool)
        requires
            self.valid(),
        ensures
            open == (self.cells().contains(pos.pos()) && pos.ring > 0 && self.links().contains(
                (pos.pos(), CircGrid::clockwise_of(*pos).pos()),
            )),
    {
        proof {
            self.grid.lemma_open(*pos);
        }
        match self.grid.cell(pos) {
            Some(cell) => cell.is_connect_clockwise,
            None => false,
        }
    }
}

impl CircGrid {
    /// What a cell records is what links it to the cell inward of it and to
    /// the next cell clockwise.
    pub(crate) proof fn lemma_open(&self, pos: CircPosition)
        requires
            self.inv(),
        ensures
            self.has(pos) == self.cells().contains(pos.pos()),
            self.has(pos) ==> self.at(pos).is_connect_inward == (pos.ring > 0
                && self.links().contains((pos.pos(), Self::inward_of(pos).pos()))),
            self.has(pos) ==> self.at(pos).is_connect_clockwise == (pos.ring > 0
                && self.links().contains((pos.pos(), Self::clockwise_of(pos).pos()))),
    {
        assert(Self::cp(pos.pos()) == pos);
        if self.has(pos) {
            self.lemma_ring_fits(pos.ring as nat);
            if pos.ring > 0 {
                self.lemma_ring_turn(pos);
                self.lemma_fan(pos, 0);
                assert(Self::cp(Self::inward_of(pos).pos()) == Self::inward_of(pos));
                assert(Self::cp(Self::clockwise_of(pos).pos()) == Self::clockwise_of(pos));
            } else {
                assert(Self::index_of(pos) == 0);
            }
        }
    }
}

impl CircGrid {
    /// A grid whose cells record nothing is valid and has no passage.
    proof fn lemma_fresh(&self)
        requires
            self.wf(),
            self.is_fresh(),
        ensures
            self.inv(),
            self.passages() == Set::<(Position2d, Position2d)>::empty(),
            self.passages_n() == 0,
    {
        lemma_passages_none(self.cells@, self.cells@.len());
        assert forall|pair: (Position2d, Position2d)| !self.passages().contains(pair) by {
            let a = Self::cp(pair.0);
            let b = Self::cp(pair.1);
            if self.has(a) {
                self.lemma_ring_fits(a.ring as nat);
                assert(self.cells@[Self::index_of(a)].passages() == 0);
            }
            if self.has(b) {
                self.lemma_ring_fits(b.ring as nat);
                assert(self.cells@[Self::index_of(b)].passages() == 0);
            }
        }
        assert(self.passages() =~= Set::<(Position2d, Position2d)>::empty());
        if self.cells@.len() > 0 {
            assert(self.cells@[0].passages() == 0);
        }
    }

    /// Every cell can be reached from the middle, ring by ring.
    proof fn lemma_reach(&self, p: CircPosition)
        requires
            self.wf(),
            self.has(p),
        ensures
            joined(
                Set::new(
                    |pair: (Position2d, Position2d)| self.around(pair.0).contains(pair.1),
                ),
                Position2d(0, 0),
                p.pos(),
            ),
        decreases p.ring,
    {
        let adj = Set::new(
            |pair: (Position2d, Position2d)| self.around(pair.0).contains(pair.1),
        );
        self.lemma_ring_fits(p.ring as nat);
        if p.ring > 0 {
            let q = Self::inward_of(p);
            self.lemma_fan(p, 0);
            self.lemma_reach(q);
            self.lemma_around(q.pos(), p.pos());
            assert(Self::cp(q.pos()) == q && Self::cp(p.pos()) == p);
            lemma_joined_step(adj, q.pos(), p.pos());
            lemma_joined_trans(adj, Position2d(0, 0), q.pos(), p.pos());
        } else {
            assert(p.pos() == Position2d(0, 0));
            lemma_joined_self(adj, p.pos());
        }
    }

    /// A ring grid is connected.
    pub proof fn lemma_connected(&self)
        requires
            self.inv(),
        ensures
            is_connected(self),
    {
        self.lemma_graph();
        let adj = adjacency(self);
        assert(symmetric(adj));
        assert forall|p: Position2d| self.cells().contains(p) implies #[trigger] joined(
            adj,
            Position2d(0, 0),
            p,
        ) by {
            self.lemma_reach(Self::cp(p));
            assert(Self::cp(p).pos() == p);
            assert(adj =~= Set::new(
                |pair: (Position2d, Position2d)| self.around(pair.0).contains(pair.1),
            ));
        }
        lemma_all_joined_from(self.cells(), adj, Position2d(0, 0));
    }
}

} // verus!
