//! The generators that work on every topology, and the disjoint-set
//! structure that some of them keep.

pub use crate::gene::eller::{EllerMazeGenerator, LayerMazeGenerator};
pub use crate::gene::union::Union;
use crate::graph::{
    is_walk, joined, lemma_all_joined_from, lemma_crossing, lemma_joined_extend,
    lemma_joined_grows, lemma_joined_self, lemma_joined_step, lemma_joined_trans,
    step_at, symmetric, walk_between, with_pair,
};
use crate::maze::{
    adjacency, is_blank, is_connected, is_perfect, lemma_same_shape_adjacency, same_shape, Grid2d,
    Position2d,
};
use crate::pos_set::PosSet;
use crate::random::RandomSource;
use vstd::prelude::*;
use vstd::set_lib::lemma_subset_equality;

pub mod circ;
pub mod eller;
pub mod hexa;
pub mod rect;
pub mod tri;
pub mod union;

verus! {

/// A generator that needs nothing of a grid but its cells, their
/// neighbourhood, and the means to open a passage.
pub trait Maze2dGenerator {
    /// Opens passages in a grid that has none until they make a perfect
    /// maze. The grid's cells must all be reachable from one another.
    fn generate_2d<G: Grid2d>(&self, grid: &mut G, rng: &mut RandomSource)
        requires
            old(grid).valid(),
            is_connected(old(grid)),
            is_blank(old(grid)),
        ensures
            final(grid).valid(),
            same_shape(final(grid), old(grid)),
            is_perfect(final(grid)),
    ;
}

/// The passages make a tree that spans the cells in `seen`: each of them can
/// be reached from `root`, no passage touches another cell, and there is one
/// passage fewer than cells in `seen`.
pub open spec fn tree_over<G: Grid2d>(grid: &G, seen: Set<Position2d>, root: Position2d) -> bool {
    &&& grid.valid()
    &&& seen.finite()
    &&& seen.subset_of(grid.cells())
    &&& seen.contains(root)
    &&& forall|v: Position2d| seen.contains(v) ==> #[trigger] joined(grid.links(), root, v)
    &&& forall|a: Position2d, b: Position2d| #[trigger]
        grid.links().contains((a, b)) ==> seen.contains(a) && seen.contains(b)
    &&& grid.links_n() + 1 == seen.len()
}

/// A grid without passages holds the tree that spans any one of its cells.
pub proof fn lemma_tree_start<G: Grid2d>(grid: &G, root: Position2d)
    requires
        grid.valid(),
        is_blank(grid),
        grid.cells().contains(root),
    ensures
        tree_over(grid, set![root], root),
{
    lemma_joined_self(grid.links(), root);
}

/// A tree that spans every cell is a perfect maze.
pub proof fn lemma_tree_complete<G: Grid2d>(grid: &G, seen: Set<Position2d>, root: Position2d)
    requires
        tree_over(grid, seen, root),
        seen == grid.cells(),
    ensures
        is_perfect(grid),
{
    grid.lemma_graph();
    assert(symmetric(grid.links()));
    lemma_all_joined_from(grid.cells(), grid.links(), root);
}

/// A grid without cells and without passages is a perfect maze.
pub proof fn lemma_empty_perfect<G: Grid2d>(grid: &G)
    requires
        grid.valid(),
        is_blank(grid),
        grid.cells() == Set::<Position2d>::empty(),
    ensures
        is_perfect(grid),
{
}

/// In a connected grid, a set of cells that holds some but not all of them
/// has a cell with a neighbour outside it.
pub proof fn lemma_frontier<G: Grid2d>(grid: &G, seen: Set<Position2d>) -> (pair: (
    Position2d,
    Position2d,
))
    requires
        grid.valid(),
        is_connected(grid),
        seen.subset_of(grid.cells()),
        seen.len() > 0,
        seen.finite(),
        seen != grid.cells(),
    ensures
        seen.contains(pair.0),
        !seen.contains(pair.1),
        grid.cells().contains(pair.1),
        grid.neighbors_of(pair.0).contains(pair.1),
{
    grid.lemma_graph();
    let inside = seen.choose();
    assert(seen.contains(inside));
    assert(!grid.cells().subset_of(seen)) by {
        if grid.cells().subset_of(seen) {
            assert(seen =~= grid.cells());
        }
    }
    let outside = choose|p: Position2d| grid.cells().contains(p) && !seen.contains(p);
    assert(joined(adjacency(grid), inside, outside));
    let pair = lemma_crossing(adjacency(grid), seen, inside, outside);
    pair
}

/// A set of cells as large as the set of all cells holds them all.
pub proof fn lemma_all_seen<G: Grid2d>(grid: &G, seen: Set<Position2d>)
    requires
        grid.valid(),
        seen.subset_of(grid.cells()),
        seen.len() == grid.cells().len(),
    ensures
        seen == grid.cells(),
{
    grid.lemma_graph();
    lemma_subset_equality(seen, grid.cells());
}

/// Opens the passage from a cell of the tree to a neighbour outside it, which
/// thereby joins the tree.
pub(crate) fn link_new<G: Grid2d>(
    grid: &mut G,
    from: &Position2d,
    to: &Position2d,
    Ghost(seen): Ghost<Set<Position2d>>,
    Ghost(root): Ghost<Position2d>,
)
    requires
        tree_over(old(grid), seen, root),
        seen.contains(*from),
        !seen.contains(*to),
        old(grid).neighbors_of(*from).contains(*to),
    ensures
        tree_over(final(grid), seen.insert(*to), root),
        same_shape(final(grid), old(grid)),
        adjacency(final(grid)) == adjacency(old(grid)),
{
    let ghost before = grid.links();
    proof {
        grid.lemma_graph();
    }
    let connected = grid.connect_to(from, to);
    proof {
        let after = grid.links();
        assert(after == with_pair(before, *from, *to));
        lemma_same_shape_adjacency(&*grid, &*old(grid));
        assert forall|v: Position2d| seen.insert(*to).contains(v) implies #[trigger] joined(
            after,
            root,
            v,
        ) by {
            if v == *to {
                lemma_joined_extend(before, root, *from, *to);
            } else {
                lemma_joined_grows(before, after, root, v);
            }
        }
    }
}

/// One of the positions in the list, or nothing where the list is empty.
pub(crate) fn pick(rng: &mut RandomSource, list: &Vec<Position2d>) -> (picked: Option<Position2d>)
    ensures
        picked is None <==> list@.len() == 0,
        picked is Some ==> list@.contains(picked->0),
{
    match rng.choose_index(list.len()) {
        Some(i) => Some(list[i]),
        None => None,
    }
}

/// Lists the neighbours of `pos` in `neighbors`, and in `chosen` those of
/// them that are members of `set` (for `member`) or are not (otherwise).
pub(crate) fn neighbors_by<G: Grid2d>(
    grid: &G,
    pos: &Position2d,
    set: &PosSet,
    member: bool,
    neighbors: &mut Vec<Position2d>,
    chosen: &mut Vec<Position2d>,
)
    requires
        grid.valid(),
        set.wf(),
    ensures
        final(neighbors)@ == grid.neighbors_of(*pos),
        forall|n: Position2d|
            #![trigger final(chosen)@.contains(n)]
            #![trigger grid.neighbors_of(*pos).contains(n)]
            final(chosen)@.contains(n) <==> grid.neighbors_of(*pos).contains(n) && set@.contains(n)
                == member,
{
    neighbors.clear();
    chosen.clear();
    grid.append_neighbors(pos, neighbors);
    assert(neighbors@ =~= grid.neighbors_of(*pos));
    let mut i: usize = 0;
    while i < neighbors.len()
        invariant
            i <= neighbors@.len(),
            set.wf(),
            neighbors@ == grid.neighbors_of(*pos),
            forall|k: int|
                0 <= k < chosen@.len() ==> neighbors@.contains(#[trigger] chosen@[k])
                    && set@.contains(chosen@[k]) == member,
            forall|j: int|
                0 <= j < i && set@.contains(#[trigger] neighbors@[j]) == member
                    ==> chosen@.contains(neighbors@[j]),
        decreases neighbors@.len() - i,
    {
        let n = neighbors[i];
        let ghost before = chosen@;
        if set.contains(&n) == member {
            chosen.push(n);
            assert(chosen@[before.len() as int] == n);
            assert forall|j: int|
                0 <= j < i + 1 && set@.contains(#[trigger] neighbors@[j])
                    == member implies chosen@.contains(neighbors@[j]) by {
                if j < i {
                    let k = choose|k: int| 0 <= k < before.len() && before[k] == neighbors@[j];
                    assert(chosen@[k] == neighbors@[j]);
                }
            }
        }
        i += 1;
    }
    proof {
        assert forall|n: Position2d|
            grid.neighbors_of(*pos).contains(n) && set@.contains(n) == member implies chosen@.contains(
            n,
        ) by {
            let j = choose|j: int| 0 <= j < neighbors@.len() && neighbors@[j] == n;
            assert(set@.contains(neighbors@[j]) == member);
        }
    }
}

/// Walks depth first: from the cell on top of a stack to a random neighbour
/// that has not been visited, and back down the stack from a dead end.
#[derive(Debug, Clone, Copy, PartialEq, Eq, PartialOrd, Ord, Hash, Default)]
pub struct RecursiveBacktrackerMazeGenerator;

/// Every visited cell is on the stack or has no neighbour outside `seen`.
pub open spec fn settled_or_listed<G: Grid2d>(
    grid: &G,
    visited: Set<Position2d>,
    seen: Set<Position2d>,
    listed: Seq<Position2d>,
) -> bool {
    forall|v: Position2d, n: Position2d|
        visited.contains(v) && #[trigger] grid.neighbors_of(v).contains(n) ==> listed.contains(v)
            || seen.contains(n)
}

/// Where every cell of a non-empty set has its neighbours in the set, a
/// connected grid has no other cell.
pub proof fn lemma_closed_is_all<G: Grid2d>(grid: &G, seen: Set<Position2d>)
    requires
        grid.valid(),
        is_connected(grid),
        seen.subset_of(grid.cells()),
        seen.finite(),
        seen.len() > 0,
        forall|v: Position2d, n: Position2d|
            seen.contains(v) && #[trigger] grid.neighbors_of(v).contains(n) ==> seen.contains(n),
    ensures
        seen == grid.cells(),
{
    if seen != grid.cells() {
        let pair = lemma_frontier(grid, seen);
    }
}

impl Maze2dGenerator for RecursiveBacktrackerMazeGenerator {
    fn generate_2d<G: Grid2d>(&self, grid: &mut G, rng: &mut RandomSource) {
        let Some(start_pos) = grid.random_cell_pos(rng) else {
            proof {
                lemma_empty_perfect(&*grid);
            }
            return ;
        };
        let mut visited_pos = PosSet::new();
        let mut unvisited_cells_n = grid.cells_n();
        let mut visited_stack: Vec<Position2d> = Vec::new();
        visited_stack.push(start_pos);
        let mut neighbors: Vec<Position2d> = Vec::new();
        let mut candidates: Vec<Position2d> = Vec::new();
        let ghost root = start_pos;
        let ghost mut seen = set![start_pos];
        proof {
            grid.lemma_graph();
            lemma_tree_start(&*grid, root);
            assert(visited_stack@[0] == start_pos);
            assert(grid.cells().len() > 0) by {
                if grid.cells().len() == 0 {
                    grid.cells().lemma_len0_is_empty();
                }
            }
        }
        while unvisited_cells_n > 0
            invariant
                tree_over(&*grid, seen, root),
                same_shape(&*grid, &*old(grid)),
                is_connected(&*grid),
                visited_pos.wf(),
                visited_pos@.subset_of(seen),
                unvisited_cells_n + visited_pos@.len() == grid.cells().len(),
                forall|p: Position2d| seen.contains(p) ==> visited_pos@.contains(p) || (
                visited_stack@.len() > 0 && visited_stack@.last() == p),
                forall|i: int|
                    0 <= i < visited_stack@.len() ==> seen.contains(#[trigger] visited_stack@[i]),
                forall|i: int|
                    0 <= i < visited_stack@.len() - 1 ==> visited_pos@.contains(
                        #[trigger] visited_stack@[i],
                    ),
                settled_or_listed(&*grid, visited_pos@, seen, visited_stack@),
                visited_stack@.len() == 0 ==> visited_pos@.len() > 0,
                unvisited_cells_n == 0 ==> seen == grid.cells(),
            ensures
                tree_over(&*grid, seen, root),
                same_shape(&*grid, &*old(grid)),
                seen == grid.cells(),
            decreases 2 * (grid.cells().len() - seen.len()) + visited_stack@.len(),
        {
            proof {
                grid.lemma_graph();
                visited_pos.lemma_len();
                vstd::set_lib::lemma_len_subset(seen, grid.cells());
                vstd::set_lib::lemma_len_subset(visited_pos@, seen);
            }
            if visited_stack.len() == 0 {
                proof {
                    assert(seen =~= visited_pos@);
                    lemma_closed_is_all(&*grid, seen);
                }
                break ;
            }
            let cur_pos = visited_stack[visited_stack.len() - 1];
            let ghost visited_before = visited_pos@;
            if visited_pos.insert(cur_pos) {
                unvisited_cells_n -= 1;
            }
            proof {
                visited_pos.lemma_len();
                assert(seen =~= visited_pos@);
            }
            neighbors_by(&*grid, &cur_pos, &visited_pos, false, &mut neighbors, &mut candidates);
            match pick(rng, &candidates) {
                None => {
                    let ghost stack_before = visited_stack@;
                    visited_stack.pop();
                    proof {
                        assert forall|v: Position2d, n: Position2d|
                            visited_pos@.contains(v) && #[trigger] grid.neighbors_of(v).contains(
                                n,
                            ) implies visited_stack@.contains(v) || seen.contains(n) by {
                            if v == cur_pos {
                                if !visited_pos@.contains(n) {
                                    assert(candidates@.contains(n));
                                }
                            } else {
                                assert(visited_before.contains(v));
                                if !seen.contains(n) {
                                    assert(stack_before.contains(v));
                                    let i = choose|i: int|
                                        0 <= i < stack_before.len() && stack_before[i] == v;
                                    assert(visited_stack@[i] == v);
                                }
                            }
                        }
                        if unvisited_cells_n == 0 {
                            lemma_all_seen(&*grid, visited_pos@);
                            assert(seen =~= grid.cells());
                        }
                    }
                },
                Some(candidate) => {
                    let ghost stack_before = visited_stack@;
                    assert(candidates@.contains(candidate));
                    link_new(grid, &cur_pos, &candidate, Ghost(seen), Ghost(root));
                    visited_stack.push(candidate);
                    proof {
                        let seen_before = seen;
                        seen = seen.insert(candidate);
                        assert(visited_stack@.last() == candidate);
                        assert forall|v: Position2d, n: Position2d|
                            visited_pos@.contains(v) && #[trigger] grid.neighbors_of(v).contains(
                                n,
                            ) implies visited_stack@.contains(v) || seen.contains(n) by {
                            if v == cur_pos {
                                assert(visited_stack@[stack_before.len() - 1] == v);
                            } else {
                                assert(visited_before.contains(v));
                                if !seen_before.contains(n) {
                                    assert(stack_before.contains(v));
                                    let i = choose|i: int|
                                        0 <= i < stack_before.len() && stack_before[i] == v;
                                    assert(visited_stack@[i] == v);
                                }
                            }
                        }
                        vstd::set_lib::lemma_len_subset(seen, grid.cells());
                        if unvisited_cells_n == 0 {
                            lemma_all_seen(&*grid, visited_pos@);
                            assert(seen =~= grid.cells());
                        }
                    }
                },
            }
        }
        proof {
            lemma_tree_complete(&*grid, seen, root);
        }
    }
}

/// The pair of two neighbours, the earlier position first, so that a pair is
/// written in one way only.
#[derive(Debug, Clone, Copy, PartialEq, Eq, PartialOrd, Ord, Hash, Structural)]
pub struct MazeEdge {
    pub low: Position2d,
    pub high: Position2d,
}

impl MazeEdge {
    /// The pair of `left` and `right` with the earlier one first.
    pub open spec fn of(left: Position2d, right: Position2d) -> MazeEdge {
        if right.spec_before(left) {
            MazeEdge { low: right, high: left }
        } else {
            MazeEdge { low: left, high: right }
        }
    }

    /// The pair of `left` and `right` with the earlier one first.
    pub fn new(left: &Position2d, right: &Position2d) -> (edge: Self)
        ensures
            edge == Self::of(*left, *right),
            edge == Self::of(*right, *left),
    {
        if right.before(*left) {
            MazeEdge { low: *right, high: *left }
        } else {
            MazeEdge { low: *left, high: *right }
        }
    }
}

/// Grows a tree from a list of active cells: a random active cell is joined to
/// a random neighbour that has not been visited, which becomes active too; a
/// cell without such a neighbour leaves the list.
#[derive(Debug, Clone, Copy, PartialEq, Eq, PartialOrd, Ord, Hash, Default)]
pub struct GrowingTreeMazeGenerator;

impl Maze2dGenerator for GrowingTreeMazeGenerator {
    fn generate_2d<G: Grid2d>(&self, grid: &mut G, rng: &mut RandomSource) {
        let cells_n = grid.cells_n();
        let Some(start_pos) = grid.random_cell_pos(rng) else {
            proof {
                lemma_empty_perfect(&*grid);
            }
            return ;
        };
        let mut active_pos: Vec<Position2d> = Vec::new();
        active_pos.push(start_pos);
        let mut visited_pos = PosSet::new();
        visited_pos.insert(start_pos);
        let mut neighbors: Vec<Position2d> = Vec::new();
        let mut candidates: Vec<Position2d> = Vec::new();
        let ghost root = start_pos;
        proof {
            grid.lemma_graph();
            lemma_tree_start(&*grid, root);
            assert(visited_pos@ =~= set![start_pos]);
            assert(active_pos@[0] == start_pos);
            visited_pos.lemma_len();
            vstd::set_lib::lemma_len_subset(visited_pos@, grid.cells());
            if visited_pos@.len() == cells_n {
                lemma_all_seen(&*grid, visited_pos@);
            }
        }
        while visited_pos.len() < cells_n
            invariant
                tree_over(&*grid, visited_pos@, root),
                same_shape(&*grid, &*old(grid)),
                is_connected(&*grid),
                visited_pos.wf(),
                cells_n == grid.cells().len(),
                visited_pos@.len() <= cells_n,
                visited_pos@.len() == cells_n ==> visited_pos@ == grid.cells(),
                forall|i: int|
                    0 <= i < active_pos@.len() ==> visited_pos@.contains(#[trigger] active_pos@[i]),
                settled_or_listed(&*grid, visited_pos@, visited_pos@, active_pos@),
            ensures
                tree_over(&*grid, visited_pos@, root),
                same_shape(&*grid, &*old(grid)),
                visited_pos@ == grid.cells(),
            decreases cells_n - visited_pos@.len(), active_pos@.len(),
        {
            if active_pos.len() == 0 {
                proof {
                    lemma_closed_is_all(&*grid, visited_pos@);
                }
                break ;
            }
            let active_ind = rng.below(active_pos.len());
            let pos = active_pos[active_ind];
            neighbors_by(&*grid, &pos, &visited_pos, false, &mut neighbors, &mut candidates);
            let ghost visited_before = visited_pos@;
            let ghost active_before = active_pos@;
            match pick(rng, &candidates) {
                None => {
                    active_pos.remove(active_ind);
                    proof {
                        assert forall|v: Position2d, n: Position2d|
                            visited_pos@.contains(v) && #[trigger] grid.neighbors_of(v).contains(
                                n,
                            ) implies active_pos@.contains(v) || visited_pos@.contains(n) by {
                            if v == pos {
                                if !visited_pos@.contains(n) {
                                    assert(candidates@.contains(n));
                                }
                            } else if !visited_pos@.contains(n) {
                                assert(active_before.contains(v));
                                let i = choose|i: int|
                                    0 <= i < active_before.len() && active_before[i] == v;
                                if i < active_ind {
                                    assert(active_pos@[i] == v);
                                } else {
                                    assert(active_pos@[i - 1] == v);
                                }
                            }
                        }
                    }
                },
                Some(neighbor) => {
                    assert(candidates@.contains(neighbor));
                    active_pos.push(neighbor);
                    visited_pos.insert(neighbor);
                    link_new(grid, &pos, &neighbor, Ghost(visited_before), Ghost(root));
                    proof {
                        grid.lemma_graph();
                        visited_pos.lemma_len();
                        vstd::set_lib::lemma_len_subset(visited_pos@, grid.cells());
                        if visited_pos@.len() == cells_n {
                            lemma_all_seen(&*grid, visited_pos@);
                        }
                        assert(active_pos@[active_before.len() as int] == neighbor);
                        assert forall|i: int| 0 <= i < active_pos@.len() implies visited_pos@.contains(
                            #[trigger] active_pos@[i],
                        ) by {
                            if i < active_before.len() {
                                assert(active_pos@[i] == active_before[i]);
                            }
                        }
                        assert forall|v: Position2d, n: Position2d|
                            visited_pos@.contains(v) && #[trigger] grid.neighbors_of(v).contains(
                                n,
                            ) implies active_pos@.contains(v) || visited_pos@.contains(n) by {
                            if v != neighbor && !visited_before.contains(n) {
                                assert(active_before.contains(v));
                                let i = choose|i: int|
                                    0 <= i < active_before.len() && active_before[i] == v;
                                assert(active_pos@[i] == v);
                            }
                        }
                    }
                },
            }
        }
        proof {
            lemma_tree_complete(&*grid, visited_pos@, root);
        }
    }
}

/// Grows a tree from its border: a random pair of neighbours is taken from
/// the pairs that had one cell in the tree when they were noted; where its other
/// cell is still outside, the passage between them is opened and the pairs round
/// that cell are noted.
#[derive(Debug, Clone, Copy, PartialEq, Eq, PartialOrd, Ord, Hash, Default)]
pub struct PrimMazeGenerator;

/// Every noted pair is a pair of neighbours of which one has been visited.
pub open spec fn noted_pairs_touch<G: Grid2d>(
    grid: &G,
    visited: Set<Position2d>,
    edges: Seq<MazeEdge>,
) -> bool {
    forall|k: int|
        0 <= k < edges.len() ==> grid.neighbors_of((#[trigger] edges[k]).low).contains(
            edges[k].high,
        ) && (visited.contains(edges[k].low) || visited.contains(edges[k].high))
}

/// Every pair of a visited cell and a neighbour that has not been visited
/// is noted.
pub open spec fn border_is_noted<G: Grid2d>(
    grid: &G,
    visited: Set<Position2d>,
    edges: Seq<MazeEdge>,
) -> bool {
    forall|u: Position2d, v: Position2d|
        visited.contains(u) && !visited.contains(v) && #[trigger] grid.neighbors_of(u).contains(v)
            ==> edges.contains(MazeEdge::of(u, v))
}

/// Notes the pairs of `pos` with the positions in `others`.
fn note_pairs(edges: &mut Vec<MazeEdge>, pos: &Position2d, others: &Vec<Position2d>)
    ensures
        forall|e: MazeEdge|
            final(edges)@.contains(e) <==> old(edges)@.contains(e) || exists|n: Position2d|
                others@.contains(n) && e == MazeEdge::of(*pos, n),
        final(edges)@.len() == old(edges)@.len() + others@.len(),
        forall|k: int| 0 <= k < old(edges)@.len() ==> final(edges)@[k] == old(edges)@[k],
        forall|k: int|
            old(edges)@.len() <= k < final(edges)@.len() ==> final(edges)@[k] == MazeEdge::of(
                *pos,
                others@[k - old(edges)@.len()],
            ),
{
    let mut i: usize = 0;
    while i < others.len()
        invariant
            i <= others@.len(),
            edges@.len() == old(edges)@.len() + i,
            forall|k: int| 0 <= k < old(edges)@.len() ==> edges@[k] == old(edges)@[k],
            forall|k: int|
                old(edges)@.len() <= k < edges@.len() ==> edges@[k] == MazeEdge::of(
                    *pos,
                    others@[k - old(edges)@.len()],
                ),
        decreases others@.len() - i,
    {
        edges.push(MazeEdge::new(pos, &others[i]));
        i += 1;
    }
    proof {
        let base = old(edges)@.len() as int;
        assert forall|e: MazeEdge|
            edges@.contains(e) <==> old(edges)@.contains(e) || exists|n: Position2d|
                others@.contains(n) && e == MazeEdge::of(*pos, n) by {
            if edges@.contains(e) {
                let k = choose|k: int| 0 <= k < edges@.len() && edges@[k] == e;
                if k < base {
                    assert(old(edges)@[k] == e);
                } else {
                    assert(others@.contains(others@[k - base]));
                }
            }
            if old(edges)@.contains(e) {
                let k = choose|k: int| 0 <= k < base && old(edges)@[k] == e;
                assert(edges@[k] == e);
            }
            if exists|n: Position2d| others@.contains(n) && e == MazeEdge::of(*pos, n) {
                let n = choose|n: Position2d| others@.contains(n) && e == MazeEdge::of(*pos, n);
                let j = choose|j: int| 0 <= j < others@.len() && others@[j] == n;
                assert(edges@[base + j] == e);
            }
        }
    }
}

impl Maze2dGenerator for PrimMazeGenerator {
    fn generate_2d<G: Grid2d>(&self, grid: &mut G, rng: &mut RandomSource) {
        let cells_n = grid.cells_n();
        let Some(start_pos) = grid.random_cell_pos(rng) else {
            proof {
                lemma_empty_perfect(&*grid);
            }
            return ;
        };
        let mut neighbors: Vec<Position2d> = Vec::new();
        let mut candidates: Vec<Position2d> = Vec::new();
        let mut visited_pos = PosSet::new();
        visited_pos.insert(start_pos);
        neighbors_by(&*grid, &start_pos, &visited_pos, false, &mut neighbors, &mut candidates);
        let mut edges: Vec<MazeEdge> = Vec::new();
        note_pairs(&mut edges, &start_pos, &candidates);
        let ghost root = start_pos;
        proof {
            grid.lemma_graph();
            lemma_tree_start(&*grid, root);
            assert(visited_pos@ =~= set![start_pos]);
            visited_pos.lemma_len();
            vstd::set_lib::lemma_len_subset(visited_pos@, grid.cells());
            if visited_pos@.len() == cells_n {
                lemma_all_seen(&*grid, visited_pos@);
            }
            assert forall|k: int| 0 <= k < edges@.len() implies grid.neighbors_of(
                (#[trigger] edges@[k]).low,
            ).contains(edges@[k].high) && (visited_pos@.contains(edges@[k].low)
                || visited_pos@.contains(edges@[k].high)) by {
                assert(candidates@.contains(candidates@[k]));
            }
        }
        while visited_pos.len() < cells_n
            invariant
                tree_over(&*grid, visited_pos@, root),
                same_shape(&*grid, &*old(grid)),
                is_connected(&*grid),
                visited_pos.wf(),
                cells_n == grid.cells().len(),
                visited_pos@.len() <= cells_n,
                visited_pos@.len() == cells_n ==> visited_pos@ == grid.cells(),
                noted_pairs_touch(&*grid, visited_pos@, edges@),
                border_is_noted(&*grid, visited_pos@, edges@),
            ensures
                tree_over(&*grid, visited_pos@, root),
                same_shape(&*grid, &*old(grid)),
                visited_pos@ == grid.cells(),
            decreases cells_n - visited_pos@.len(), edges@.len(),
        {
            proof {
                grid.lemma_graph();
            }
            let Some(edge_ind) = rng.choose_index(edges.len()) else {
                proof {
                    if visited_pos@ != grid.cells() {
                        let pair = lemma_frontier(&*grid, visited_pos@);
                        assert(edges@.contains(MazeEdge::of(pair.0, pair.1)));
                    }
                }
                break ;
            };
            let ghost edges_before = edges@;
            let ghost visited_before = visited_pos@;
            let edge = take_pair(&mut edges, edge_ind);
            let low_visited = visited_pos.contains(&edge.low);
            let high_visited = visited_pos.contains(&edge.high);
            if low_visited && high_visited {
                // Both ends have been reached since the pair was noted.
                proof {
                    assert forall|k: int| 0 <= k < edges@.len() implies grid.neighbors_of(
                        (#[trigger] edges@[k]).low,
                    ).contains(edges@[k].high) && (visited_pos@.contains(edges@[k].low)
                        || visited_pos@.contains(edges@[k].high)) by {
                        let e = edges@[k];
                        assert(edges_before.contains(e));
                        let j = choose|j: int| 0 <= j < edges_before.len() && edges_before[j] == e;
                        assert(edges_before[j] == e);
                    }
                }
            } else {
                let (from, to) = if !low_visited {
                    (edge.high, edge.low)
                } else {
                    (edge.low, edge.high)
                };
                link_new(grid, &from, &to, Ghost(visited_before), Ghost(root));
                visited_pos.insert(to);
                neighbors_by(&*grid, &to, &visited_pos, false, &mut neighbors, &mut candidates);
                let ghost edges_cut = edges@;
                note_pairs(&mut edges, &to, &candidates);
                proof {
                    grid.lemma_graph();
                    visited_pos.lemma_len();
                    vstd::set_lib::lemma_len_subset(visited_pos@, grid.cells());
                    if visited_pos@.len() == cells_n {
                        lemma_all_seen(&*grid, visited_pos@);
                    }
                    assert forall|k: int| 0 <= k < edges@.len() implies grid.neighbors_of(
                        (#[trigger] edges@[k]).low,
                    ).contains(edges@[k].high) && (visited_pos@.contains(edges@[k].low)
                        || visited_pos@.contains(edges@[k].high)) by {
                        let e = edges@[k];
                        if k < edges_cut.len() {
                            assert(edges_cut[k] == e);
                            assert(edges_before.contains(e));
                            let j = choose|j: int|
                                0 <= j < edges_before.len() && edges_before[j] == e;
                            assert(edges_before[j] == e);
                        } else {
                            let n = candidates@[k - edges_cut.len()];
                            assert(candidates@.contains(n));
                            assert(e == MazeEdge::of(to, n));
                        }
                    }
                    assert forall|u: Position2d, v: Position2d|
                        visited_pos@.contains(u) && !visited_pos@.contains(v)
                            && #[trigger] grid.neighbors_of(u).contains(v) implies edges@.contains(
                        MazeEdge::of(u, v),
                    ) by {
                        if u == to {
                            assert(candidates@.contains(v));
                        } else {
                            assert(edges_before.contains(MazeEdge::of(u, v)));
                            assert(MazeEdge::of(u, v) != edge);
                            assert(edges_cut.contains(MazeEdge::of(u, v)));
                        }
                    }
                }
            }
        }
        proof {
            lemma_tree_complete(&*grid, visited_pos@, root);
        }
    }
}

/// How many steps the random walks of Aldous-Broder and Wilson take at
/// most. A walk that has not come to its end by then is given up, and the
/// cells that are left are joined to the tree one by one.
pub const WALK_LIMIT: usize = usize::MAX;

/// In a connected grid with more than one cell, every cell has a neighbour.
pub proof fn lemma_has_neighbor<G: Grid2d>(grid: &G, pos: Position2d, other: Position2d)
    requires
        grid.valid(),
        is_connected(grid),
        grid.cells().contains(pos),
        grid.cells().contains(other),
        pos != other,
    ensures
        grid.neighbors_of(pos).len() > 0,
{
    assert(joined(adjacency(grid), pos, other));
    let pair = lemma_crossing(adjacency(grid), set![pos], pos, other);
    assert(grid.neighbors_of(pos).contains(pair.1));
}

/// Looks for a cell that has not been visited next to one that has: the
/// first such cell in the order of `unvisited`, with a random one of its
/// visited neighbours.
pub(crate) fn hunt<G: Grid2d>(
    grid: &G,
    unvisited: &PosSet,
    rng: &mut RandomSource,
    neighbors: &mut Vec<Position2d>,
    candidates: &mut Vec<Position2d>,
) -> (found: Option<(Position2d, Position2d)>)
    requires
        grid.valid(),
        unvisited.wf(),
    ensures
        match found {
            Some((next_start, prev_visited)) => unvisited@.contains(next_start)
                && !unvisited@.contains(prev_visited) && grid.neighbors_of(next_start).contains(
                prev_visited,
            ),
            None => forall|u: Position2d, n: Position2d|
                unvisited@.contains(u) && #[trigger] grid.neighbors_of(u).contains(n)
                    ==> unvisited@.contains(n),
        },
{
    let total = unvisited.len();
    let mut i: usize = 0;
    while i < total
        invariant
            grid.valid(),
            unvisited.wf(),
            total == unvisited.order().len(),
            i <= total,
            forall|j: int, n: Position2d|
                0 <= j < i && #[trigger] grid.neighbors_of(unvisited.order()[j]).contains(n)
                    ==> unvisited@.contains(n),
        decreases total - i,
    {
        let pos = unvisited.get(i);
        neighbors_by(grid, &pos, unvisited, false, neighbors, candidates);
        match pick(rng, candidates) {
            Some(neighbor) => {
                assert(candidates@.contains(neighbor));
                return Some((pos, neighbor));
            },
            None => {
                assert forall|n: Position2d| #[trigger]
                    grid.neighbors_of(pos).contains(n) implies unvisited@.contains(n) by {
                    if !unvisited@.contains(n) {
                        assert(candidates@.contains(n));
                    }
                }
            },
        }
        i += 1;
    }
    proof {
        assert forall|u: Position2d, n: Position2d|
            unvisited@.contains(u) && #[trigger] grid.neighbors_of(u).contains(n) implies unvisited@.contains(
            n,
        ) by {
            let j = choose|j: int| 0 <= j < unvisited.order().len() && unvisited.order()[j] == u;
            assert(grid.neighbors_of(unvisited.order()[j]).contains(n));
        }
    }
    None
}

/// Where no unvisited cell of a connected grid is next to a visited one, and
/// some cell has been visited, every cell has.
pub proof fn lemma_hunt_over<G: Grid2d>(grid: &G, unvisited: Set<Position2d>)
    requires
        grid.valid(),
        is_connected(grid),
        unvisited.subset_of(grid.cells()),
        unvisited != grid.cells(),
        forall|u: Position2d, n: Position2d|
            unvisited.contains(u) && #[trigger] grid.neighbors_of(u).contains(n)
                ==> unvisited.contains(n),
    ensures
        unvisited == Set::<Position2d>::empty(),
{
    grid.lemma_graph();
    let visited = grid.cells().difference(unvisited);
    assert(visited.len() > 0) by {
        if visited.len() == 0 {
            assert(visited.finite());
            visited.lemma_len0_is_empty();
            assert forall|p: Position2d| grid.cells().contains(p) implies unvisited.contains(
                p,
            ) by {
                assert(!visited.contains(p));
            }
            assert(unvisited =~= grid.cells());
        }
    }
    if visited != grid.cells() {
        let pair = lemma_frontier(grid, visited);
        assert(grid.neighbors_of(pair.1).contains(pair.0));
    }
    assert(unvisited =~= Set::<Position2d>::empty());
}

/// Joins every cell that has not been visited to the tree: as long as there
/// is one, a hunt finds one next to the tree.
pub(crate) fn attach_by_hunting<G: Grid2d>(
    grid: &mut G,
    unvisited: &mut PosSet,
    rng: &mut RandomSource,
    Ghost(root): Ghost<Position2d>,
)
    requires
        tree_over(old(grid), old(grid).cells().difference(old(unvisited)@), root),
        is_connected(old(grid)),
        old(unvisited).wf(),
        old(unvisited)@.subset_of(old(grid).cells()),
    ensures
        tree_over(final(grid), final(grid).cells(), root),
        same_shape(final(grid), old(grid)),
{
    let mut neighbors: Vec<Position2d> = Vec::new();
    let mut candidates: Vec<Position2d> = Vec::new();
    while !unvisited.is_empty()
        invariant
            tree_over(&*grid, grid.cells().difference(unvisited@), root),
            same_shape(&*grid, &*old(grid)),
            is_connected(&*grid),
            unvisited.wf(),
            unvisited@.subset_of(grid.cells()),
        ensures
            tree_over(&*grid, grid.cells().difference(unvisited@), root),
            same_shape(&*grid, &*old(grid)),
            unvisited@ == Set::<Position2d>::empty(),
        decreases unvisited@.len(),
    {
        let ghost seen = grid.cells().difference(unvisited@);
        proof {
            unvisited.lemma_len();
            grid.lemma_graph();
        }
        match hunt(&*grid, &*unvisited, rng, &mut neighbors, &mut candidates) {
            None => {
                proof {
                    assert(unvisited@ != grid.cells());
                    lemma_hunt_over(&*grid, unvisited@);
                }
                break ;
            },
            Some((next_start, prev_visited)) => {
                link_new(grid, &prev_visited, &next_start, Ghost(seen), Ghost(root));
                unvisited.remove(&next_start);
                proof {
                    unvisited.lemma_len();
                    assert(grid.cells().difference(unvisited@) =~= seen.insert(next_start));
                }
            },
        }
    }
    proof {
        assert(grid.cells().difference(unvisited@) =~= grid.cells());
    }
}

/// Walks at random into cells that have not been visited until it is stuck,
/// then hunts for an unvisited cell next to a visited one and walks on from
/// there.
#[derive(Debug, Clone, Copy, PartialEq, Eq, PartialOrd, Ord, Hash, Default)]
pub struct HuntAndKillMazeGenerator;

impl Maze2dGenerator for HuntAndKillMazeGenerator {
    fn generate_2d<G: Grid2d>(&self, grid: &mut G, rng: &mut RandomSource) {
        let mut unvisited_pos = grid.all_cells_pos_set();
        let Some(mut cur_pos) = grid.random_cell_pos(rng) else {
            proof {
                lemma_empty_perfect(&*grid);
            }
            return ;
        };
        let mut neighbors: Vec<Position2d> = Vec::new();
        let mut candidates: Vec<Position2d> = Vec::new();
        let ghost root = cur_pos;
        let ghost mut seen = set![cur_pos];
        proof {
            grid.lemma_graph();
            lemma_tree_start(&*grid, root);
            assert(seen =~= grid.cells().difference(unvisited_pos@).insert(cur_pos));
        }
        while !unvisited_pos.is_empty()
            invariant_except_break
                unvisited_pos@.contains(cur_pos),
            invariant
                tree_over(&*grid, seen, root),
                same_shape(&*grid, &*old(grid)),
                is_connected(&*grid),
                unvisited_pos.wf(),
                unvisited_pos@.subset_of(grid.cells()),
                seen == grid.cells().difference(unvisited_pos@).insert(cur_pos),
            ensures
                seen == grid.cells(),
            decreases unvisited_pos@.len(),
        {
            let ghost len_at_head = unvisited_pos@.len();
            // Kill phase.
            loop
                invariant_except_break
                    unvisited_pos@.contains(cur_pos),
                    unvisited_pos@.len() <= len_at_head,
                invariant
                    tree_over(&*grid, seen, root),
                    same_shape(&*grid, &*old(grid)),
                    is_connected(&*grid),
                    unvisited_pos.wf(),
                    unvisited_pos@.subset_of(grid.cells()),
                    seen == grid.cells().difference(unvisited_pos@).insert(cur_pos),
                ensures
                    !unvisited_pos@.contains(cur_pos),
                    unvisited_pos@.len() < len_at_head,
                decreases unvisited_pos@.len(),
            {
                proof {
                    unvisited_pos.lemma_len();
                }
                unvisited_pos.remove(&cur_pos);
                proof {
                    unvisited_pos.lemma_len();
                    assert(seen =~= grid.cells().difference(unvisited_pos@));
                }
                // Select an unvisited candidate randomly.
                neighbors_by(
                    &*grid,
                    &cur_pos,
                    &unvisited_pos,
                    true,
                    &mut neighbors,
                    &mut candidates,
                );
                let Some(candidate) = pick(rng, &candidates) else {
                    break ;
                };
                assert(candidates@.contains(candidate));
                link_new(grid, &cur_pos, &candidate, Ghost(seen), Ghost(root));
                proof {
                    seen = seen.insert(candidate);
                    assert(seen =~= grid.cells().difference(unvisited_pos@).insert(candidate));
                }
                cur_pos = candidate;
            }

            // Hunt phase, find a position which neighbors contain a visited position.
            proof {
                grid.lemma_graph();
                assert(seen =~= grid.cells().difference(unvisited_pos@));
            }
            let Some((next_start_pos, prev_visited_pos)) = hunt(
                &*grid,
                &unvisited_pos,
                rng,
                &mut neighbors,
                &mut candidates,
            ) else {
                proof {
                    assert(unvisited_pos@ != grid.cells());
                    lemma_hunt_over(&*grid, unvisited_pos@);
                    assert(seen =~= grid.cells());
                }
                break ;
            };
            link_new(grid, &prev_visited_pos, &next_start_pos, Ghost(seen), Ghost(root));
            proof {
                seen = seen.insert(next_start_pos);
                assert(seen =~= grid.cells().difference(unvisited_pos@).insert(next_start_pos));
            }
            cur_pos = next_start_pos;
        }
        proof {
            lemma_tree_complete(&*grid, seen, root);
        }
    }
}

/// The cells that are not in `visited`.
pub(crate) fn unvisited_of<G: Grid2d>(grid: &G, visited: &PosSet) -> (unvisited: PosSet)
    requires
        grid.valid(),
        visited.wf(),
    ensures
        unvisited.wf(),
        unvisited@ == grid.cells().difference(visited@),
{
    let all = grid.all_cells_pos_set();
    let mut unvisited = PosSet::new();
    let total = all.len();
    let mut i: usize = 0;
    while i < total
        invariant
            all.wf(),
            visited.wf(),
            unvisited.wf(),
            total == all.order().len(),
            i <= total,
            all@ == grid.cells(),
            forall|p: Position2d|
                unvisited@.contains(p) <==> !visited@.contains(p) && exists|j: int|
                    0 <= j < i && all.order()[j] == p,
        decreases total - i,
    {
        let pos = all.get(i);
        let ghost before = unvisited@;
        if !visited.contains(&pos) {
            unvisited.insert(pos);
        }
        proof {
            assert forall|p: Position2d|
                unvisited@.contains(p) <==> !visited@.contains(p) && exists|j: int|
                    0 <= j < i + 1 && all.order()[j] == p by {
                if unvisited@.contains(p) {
                    if before.contains(p) {
                        let j = choose|j: int| 0 <= j < i && all.order()[j] == p;
                        assert(0 <= j < i + 1 && all.order()[j] == p);
                    } else {
                        assert(all.order()[i as int] == p);
                    }
                }
                if !visited@.contains(p) && exists|j: int|
                    0 <= j < i + 1 && all.order()[j] == p {
                    let j = choose|j: int| 0 <= j < i + 1 && all.order()[j] == p;
                    if j < i {
                        assert(before.contains(p));
                    }
                }
            }
        }
        i += 1;
    }
    proof {
        assert forall|p: Position2d|
            grid.cells().difference(visited@).contains(p) implies unvisited@.contains(p) by {
            let j = choose|j: int| 0 <= j < all.order().len() && all.order()[j] == p;
            assert(0 <= j < i && all.order()[j] == p);
        }
        assert(unvisited@ =~= grid.cells().difference(visited@));
    }
    unvisited
}

/// Walks at random from neighbour to neighbour, and opens the passage behind
/// it whenever it enters a cell for the first time.
#[derive(Debug, Clone, Copy, PartialEq, Eq, PartialOrd, Ord, Hash, Default)]
pub struct AldousBroderMazeGenerator;

impl Maze2dGenerator for AldousBroderMazeGenerator {
    fn generate_2d<G: Grid2d>(&self, grid: &mut G, rng: &mut RandomSource) {
        let mut visited_pos = PosSet::new();
        let Some(mut cur_pos) = grid.random_cell_pos(rng) else {
            proof {
                lemma_empty_perfect(&*grid);
            }
            return ;
        };
        visited_pos.insert(cur_pos);
        let ghost root = cur_pos;
        proof {
            grid.lemma_graph();
            lemma_tree_start(&*grid, root);
            assert(visited_pos@ =~= set![cur_pos]);
            visited_pos.lemma_len();
            assert(grid.cells().len() > 0) by {
                if grid.cells().len() == 0 {
                    grid.cells().lemma_len0_is_empty();
                }
            }
        }
        let mut unvisited_cells_n = grid.cells_n() - 1;
        let mut neighbors: Vec<Position2d> = Vec::new();
        let mut steps_left = WALK_LIMIT;
        while unvisited_cells_n > 0 && steps_left > 0
            invariant
                tree_over(&*grid, visited_pos@, root),
                same_shape(&*grid, &*old(grid)),
                is_connected(&*grid),
                visited_pos.wf(),
                visited_pos@.contains(cur_pos),
                unvisited_cells_n + visited_pos@.len() == grid.cells().len(),
            decreases steps_left,
        {
            steps_left -= 1;
            neighbors.clear();
            grid.append_neighbors(&cur_pos, &mut neighbors);
            proof {
                grid.lemma_graph();
                visited_pos.lemma_len();
                assert(neighbors@ =~= grid.neighbors_of(cur_pos));
                assert(visited_pos@ != grid.cells());
                assert(!grid.cells().subset_of(visited_pos@)) by {
                    if grid.cells().subset_of(visited_pos@) {
                        assert(visited_pos@ =~= grid.cells());
                    }
                }
                let other = choose|p: Position2d|
                    grid.cells().contains(p) && !visited_pos@.contains(p);
                lemma_has_neighbor(&*grid, cur_pos, other);
            }
            let candidate = pick(rng, &neighbors).unwrap();
            if !visited_pos.contains(&candidate) {
                link_new(grid, &cur_pos, &candidate, Ghost(visited_pos@), Ghost(root));
                visited_pos.insert(candidate);
                unvisited_cells_n -= 1;
                proof {
                    visited_pos.lemma_len();
                }
            }
            cur_pos = candidate;
        }
        if unvisited_cells_n > 0 {
            let mut unvisited_pos = unvisited_of(&*grid, &visited_pos);
            proof {
                grid.lemma_graph();
                assert(grid.cells().difference(unvisited_pos@) =~= visited_pos@);
            }
            attach_by_hunting(grid, &mut unvisited_pos, rng, Ghost(root));
        } else {
            proof {
                visited_pos.lemma_len();
                lemma_all_seen(&*grid, visited_pos@);
            }
        }
        proof {
            lemma_tree_complete(&*grid, grid.cells(), root);
        }
    }
}

/// The path's position `i` has its position `i + 1` as a neighbour.
pub open spec fn trail_step<G: Grid2d>(grid: &G, path: Seq<Position2d>, i: int) -> bool {
    grid.neighbors_of(path[i]).contains(path[i + 1])
}

/// Each position of the path has the next one as a neighbour.
pub open spec fn is_trail<G: Grid2d>(grid: &G, path: Seq<Position2d>) -> bool {
    forall|i: int| 0 <= i < path.len() - 1 ==> #[trigger] trail_step(grid, path, i)
}

/// One of the set's members, or nothing where it has none.
pub(crate) fn pick_member(rng: &mut RandomSource, set: &PosSet) -> (picked: Option<Position2d>)
    requires
        set.wf(),
    ensures
        picked is None <==> set@.len() == 0,
        picked is Some ==> set@.contains(picked->0),
{
    match rng.choose_index(set.len()) {
        Some(i) => Some(set.get(i)),
        None => None,
    }
}

/// The path of a loop-erased walk after the step from `cur` to `candidate`:
/// `cur` has joined the path; where the walk has not arrived and `candidate`
/// is on the path, the path is cut back to before `candidate`.
pub open spec fn stepped(
    order: Seq<Position2d>,
    cur: Position2d,
    candidate: Position2d,
    arrived: bool,
) -> Seq<Position2d> {
    let grown = order.push(cur);
    if !arrived && grown.contains(candidate) {
        grown.subrange(0, grown.index_of(candidate))
    } else {
        grown
    }
}

/// Walks at random from unvisited cells; a walk that runs into itself loses
/// the loop it has closed; a walk that reaches a visited cell becomes part of
/// the maze.
#[derive(Debug, Clone, Copy, PartialEq, Eq, PartialOrd, Ord, Default, Hash)]
pub struct WilsonMazeGenerator;

impl WilsonMazeGenerator {
    /// One step of the walk, from `cur` to its neighbour `candidate`: `cur`
    /// joins the path. The walk has arrived where `candidate` lies outside
    /// `unvisited`. Where it has not and `candidate` is on the path, the loop
    /// is cut off: the path is cut back to before `candidate`.
    pub fn walk_step(
        unvisited: &PosSet,
        path: &mut PosSet,
        cur: Position2d,
        candidate: Position2d,
    ) -> (arrived: bool)
        requires
            unvisited.wf(),
            old(path).wf(),
            !old(path)@.contains(cur),
        ensures
            final(path).wf(),
            arrived == !unvisited@.contains(candidate),
            final(path).order() == stepped(old(path).order(), cur, candidate, arrived),
    {
        path.insert(cur);
        let ghost grown = path.order();
        proof {
            path.lemma_len();
        }
        if !unvisited.contains(&candidate) {
            // Touch visited position in previous walks, path ends.
            return true;
        }
        match path.index_of(&candidate) {
            Some(path_ind) => {
                // The current path has a loop, remove it by cutting the tail
                // (including the repeated position).
                path.truncate(path_ind);
                proof {
                    assert(grown[path_ind as int] == candidate);
                    assert(grown.contains(candidate));
                    assert(grown.index_of(candidate) == path_ind);
                }
            },
            None => {
                proof {
                    if grown.contains(candidate) {
                        let k = choose|k: int| 0 <= k < grown.len() && grown[k] == candidate;
                        assert(path@.contains(grown[k]));
                    }
                }
            },
        }
        false
    }

    /// Walks at random from `start` until the walk reaches a cell outside
    /// `unvisited`, which is returned, or until no step is left. Whenever the
    /// walk comes back to a cell on its path, the path is cut back to before
    /// that cell. The path that is left holds no cell twice, leads from
    /// `start` through unvisited neighbours, and has the returned cell next to
    /// its last one.
    pub fn loop_erased_walk<G: Grid2d>(
        grid: &G,
        unvisited: &PosSet,
        start: Position2d,
        rng: &mut RandomSource,
        steps_left: &mut usize,
        path: &mut PosSet,
    ) -> (end: Option<Position2d>)
        requires
            grid.valid(),
            is_connected(grid),
            unvisited.wf(),
            unvisited@.subset_of(grid.cells()),
            unvisited@.contains(start),
            unvisited@ != grid.cells(),
            *old(steps_left) > 0,
        ensures
            final(path).wf(),
            final(path).order().no_duplicates(),
            final(path)@.subset_of(unvisited@),
            *final(steps_left) < *old(steps_left),
            match end {
                Some(reached) => {
                    &&& grid.cells().contains(reached)
                    &&& !unvisited@.contains(reached)
                    &&& final(path).order().len() > 0
                    &&& final(path).order()[0] == start
                    &&& is_trail(grid, final(path).order().push(reached))
                },
                None => *final(steps_left) == 0,
            },
            (forall|n: Position2d| #[trigger]
                grid.neighbors_of(start).contains(n) ==> !unvisited@.contains(n)) ==> end is Some,
    {
        path.clear();
        let mut cur_pos = start;
        let mut neighbors: Vec<Position2d> = Vec::new();
        while *steps_left > 0
            invariant
                grid.valid(),
                is_connected(grid),
                unvisited.wf(),
                unvisited@.subset_of(grid.cells()),
                unvisited@ != grid.cells(),
                path.wf(),
                path@.subset_of(unvisited@),
                unvisited@.contains(cur_pos),
                !path@.contains(cur_pos),
                is_trail(grid, path.order().push(cur_pos)),
                path.order().push(cur_pos)[0] == start,
                *steps_left <= *old(steps_left),
                *steps_left == *old(steps_left) ==> path.order().len() == 0 && cur_pos == start,
                *steps_left < *old(steps_left) ==> exists|n: Position2d| #[trigger]
                    grid.neighbors_of(start).contains(n) && unvisited@.contains(n),
            decreases *steps_left,
        {
            *steps_left -= 1;
            // Random walk.
            neighbors.clear();
            grid.append_neighbors(&cur_pos, &mut neighbors);
            proof {
                grid.lemma_graph();
                assert(neighbors@ =~= grid.neighbors_of(cur_pos));
                assert(!grid.cells().subset_of(unvisited@)) by {
                    if grid.cells().subset_of(unvisited@) {
                        assert(unvisited@ =~= grid.cells());
                    }
                }
                let other = choose|p: Position2d|
                    grid.cells().contains(p) && !unvisited@.contains(p);
                lemma_has_neighbor(grid, cur_pos, other);
            }
            let candidate = pick(rng, &neighbors).unwrap();
            let ghost first = *steps_left + 1 == *old(steps_left);
            let ghost before = *path;
            let ghost trail_before = path.order().push(cur_pos);
            let arrived = Self::walk_step(unvisited, path, cur_pos, candidate);
            proof {
                path.lemma_len();
                assert forall|i: int|
                    0 <= i < trail_before.push(candidate).len() - 1 implies #[trigger] trail_step(
                    grid,
                    trail_before.push(candidate),
                    i,
                ) by {
                    if i < trail_before.len() - 1 {
                        assert(trail_step(grid, trail_before, i));
                    }
                }
                assert forall|p: Position2d| trail_before.contains(p) implies unvisited@.contains(
                    p,
                ) by {
                    let j = choose|j: int| 0 <= j < trail_before.len() && trail_before[j] == p;
                    if j < trail_before.len() - 1 {
                        assert(before.order()[j] == p);
                        assert(before@.contains(p));
                    }
                }
            }
            if arrived {
                proof {
                    assert(path@ =~= trail_before.to_set());
                }
                return Some(candidate);
            }
            proof {
                if first {
                    assert(grid.neighbors_of(start).contains(candidate));
                }
                let cut = path.order().push(candidate);
                if trail_before.contains(candidate) {
                    let k = trail_before.index_of(candidate);
                    assert(cut =~= trail_before.subrange(0, k + 1));
                }
                assert forall|i: int| 0 <= i < cut.len() - 1 implies #[trigger] trail_step(
                    grid,
                    cut,
                    i,
                ) by {
                    if trail_before.contains(candidate) {
                        assert(trail_step(grid, trail_before, i));
                    } else {
                        assert(trail_step(grid, trail_before.push(candidate), i));
                    }
                }
                assert forall|p: Position2d| path@.contains(p) implies unvisited@.contains(p)
                    && p != candidate by {
                    let j = choose|j: int| 0 <= j < path.order().len() && path.order()[j] == p;
                    assert(trail_before[j] == p);
                    assert(trail_before.contains(p));
                    if trail_before.contains(candidate) {
                        let k = trail_before.index_of(candidate);
                        assert(trail_before[k] == candidate);
                        before.lemma_len();
                        if k < before.order().len() && j < before.order().len() {
                            assert(before.order()[j] != before.order()[k]);
                        } else if k < before.order().len() {
                        } else {
                            assert(before@.contains(before.order()[j]));
                        }
                    }
                }
            }
            cur_pos = candidate;
        }
        proof {
            path.lemma_len();
        }
        None
    }

    /// Opens the passages along a path that ends next to the visited cell
    /// `end`, from that end backwards, and takes the path's cells out of
    /// `unvisited`.
    fn commit<G: Grid2d>(
        grid: &mut G,
        path: &PosSet,
        end: Position2d,
        unvisited: &mut PosSet,
        Ghost(root): Ghost<Position2d>,
    )
        requires
            tree_over(old(grid), old(grid).cells().difference(old(unvisited)@), root),
            old(unvisited).wf(),
            old(unvisited)@.subset_of(old(grid).cells()),
            path.wf(),
            path@.subset_of(old(unvisited)@),
            old(grid).cells().contains(end),
            !old(unvisited)@.contains(end),
            is_trail(old(grid), path.order().push(end)),
        ensures
            tree_over(final(grid), final(grid).cells().difference(final(unvisited)@), root),
            same_shape(final(grid), old(grid)),
            adjacency(final(grid)) == adjacency(old(grid)),
            final(unvisited).wf(),
            final(unvisited)@ == old(unvisited)@.difference(path@),
    {
        let total = path.len();
        let mut next = end;
        let mut k: usize = total;
        let ghost trail = path.order().push(end);
        proof {
            lemma_same_shape_adjacency(&*grid, &*old(grid));
        }
        while k > 0
            invariant
                k <= total,
                total == path.order().len(),
                path.wf(),
                path.order().no_duplicates(),
                trail == path.order().push(end),
                next == trail[k as int],
                tree_over(&*grid, grid.cells().difference(unvisited@), root),
                same_shape(&*grid, &*old(grid)),
                adjacency(&*grid) == adjacency(&*old(grid)),
                is_trail(&*old(grid), trail),
                unvisited.wf(),
                unvisited@.subset_of(old(unvisited)@),
                old(unvisited)@.subset_of(grid.cells()),
                !unvisited@.contains(next),
                grid.cells().contains(next),
                forall|j: int| 0 <= j < k ==> unvisited@.contains(#[trigger] path.order()[j]),
                forall|j: int| k <= j < total ==> !unvisited@.contains(#[trigger] path.order()[j]),
                forall|p: Position2d|
                    !path@.contains(p) ==> unvisited@.contains(p) == old(unvisited)@.contains(p),
            decreases k,
        {
            k -= 1;
            let pos = path.get(k);
            let ghost seen = grid.cells().difference(unvisited@);
            let ghost unvisited_before = unvisited@;
            proof {
                grid.lemma_graph();
                assert(trail_step(&*old(grid), trail, k as int));
                assert(grid.neighbors_of(pos).contains(next));
            }
            link_new(grid, &next, &pos, Ghost(seen), Ghost(root));
            unvisited.remove(&pos);
            proof {
                assert(grid.cells().difference(unvisited@) =~= seen.insert(pos));
                assert forall|j: int| 0 <= j < k implies unvisited@.contains(
                    #[trigger] path.order()[j],
                ) by {
                    assert(path.order()[j] != path.order()[k as int]);
                }
                assert forall|p: Position2d| !path@.contains(p) implies unvisited@.contains(p)
                    == old(unvisited)@.contains(p) by {
                    assert(path@.contains(pos));
                }
            }
            next = pos;
        }
        proof {
            assert forall|p: Position2d| unvisited@.contains(p) == old(unvisited)@.difference(
                path@,
            ).contains(p) by {
                if path@.contains(p) {
                    let j = choose|j: int| 0 <= j < path.order().len() && path.order()[j] == p;
                    assert(!unvisited@.contains(path.order()[j]));
                }
            }
            assert(unvisited@ =~= old(unvisited)@.difference(path@));
        }
    }
}

impl Maze2dGenerator for WilsonMazeGenerator {
    fn generate_2d<G: Grid2d>(&self, grid: &mut G, rng: &mut RandomSource) {
        let mut unvisited_pos = grid.all_cells_pos_set();
        let Some(first_visited_pos) = pick_member(rng, &unvisited_pos) else {
            proof {
                grid.lemma_graph();
                grid.cells().lemma_len0_is_empty();
                lemma_empty_perfect(&*grid);
            }
            return ;
        };
        unvisited_pos.remove(&first_visited_pos);
        let mut cur_path = PosSet::new();
        let mut steps_left = WALK_LIMIT;
        let ghost root = first_visited_pos;
        proof {
            grid.lemma_graph();
            lemma_tree_start(&*grid, root);
            assert(grid.cells().difference(unvisited_pos@) =~= set![root]);
        }
        while !unvisited_pos.is_empty() && steps_left > 0
            invariant
                tree_over(&*grid, grid.cells().difference(unvisited_pos@), root),
                same_shape(&*grid, &*old(grid)),
                is_connected(&*grid),
                unvisited_pos.wf(),
                unvisited_pos@.subset_of(grid.cells()),
                cur_path.wf(),
            decreases steps_left,
        {
            proof {
                unvisited_pos.lemma_len();
                assert(!unvisited_pos@.contains(root));
            }
            let start_pos = pick_member(rng, &unvisited_pos).unwrap();
            let walk_end = Self::loop_erased_walk(
                &*grid,
                &unvisited_pos,
                start_pos,
                rng,
                &mut steps_left,
                &mut cur_path,
            );
            if let Some(end) = walk_end {
                // Connect the current path.
                Self::commit(grid, &cur_path, end, &mut unvisited_pos, Ghost(root));
            }
        }
        if !unvisited_pos.is_empty() {
            attach_by_hunting(grid, &mut unvisited_pos, rng, Ghost(root));
        } else {
            proof {
                assert(grid.cells().difference(unvisited_pos@) =~= grid.cells());
            }
        }
        proof {
            lemma_tree_complete(&*grid, grid.cells(), root);
        }
    }
}

/// Takes the pairs of neighbours in random order and opens the passage of
/// each pair whose cells are not yet joined, until all cells are.
#[derive(Debug, Clone, Copy, PartialEq, Eq, PartialOrd, Ord, Hash, Default)]
pub struct KruskalMazeGenerator;

/// Every noted pair is a pair of neighbours.
pub open spec fn pairs_are_neighbors<G: Grid2d>(grid: &G, edges: Seq<MazeEdge>) -> bool {
    forall|k: int|
        0 <= k < edges.len() ==> grid.neighbors_of((#[trigger] edges[k]).low).contains(
            edges[k].high,
        )
}

/// Notes the pairs of `pos` with those of `others` that come after it, so
/// that a pair of neighbours is noted from one side only.
fn note_later_pairs(edges: &mut Vec<MazeEdge>, pos: &Position2d, others: &Vec<Position2d>)
    ensures
        forall|e: MazeEdge| old(edges)@.contains(e) ==> final(edges)@.contains(e),
        forall|n: Position2d|
            others@.contains(n) && pos.spec_before(n) ==> final(edges)@.contains(
                #[trigger] MazeEdge::of(*pos, n),
            ),
        forall|k: int|
            0 <= k < final(edges)@.len() ==> old(edges)@.contains(#[trigger] final(edges)@[k])
                || exists|n: Position2d|
                others@.contains(n) && final(edges)@[k] == MazeEdge::of(*pos, n),
{
    let mut i: usize = 0;
    while i < others.len()
        invariant
            i <= others@.len(),
            forall|e: MazeEdge| old(edges)@.contains(e) ==> edges@.contains(e),
            forall|j: int|
                0 <= j < i && pos.spec_before(others@[j]) ==> edges@.contains(
                    #[trigger] MazeEdge::of(*pos, others@[j]),
                ),
            forall|k: int|
                0 <= k < edges@.len() ==> old(edges)@.contains(#[trigger] edges@[k]) || exists|
                    n: Position2d,
                | others@.contains(n) && edges@[k] == MazeEdge::of(*pos, n),
        decreases others@.len() - i,
    {
        let other = others[i];
        if pos.before(other) {
            let ghost before = edges@;
            edges.push(MazeEdge::new(pos, &other));
            proof {
                assert(edges@[before.len() as int] == MazeEdge::of(*pos, other));
                assert forall|e: MazeEdge| before.contains(e) implies edges@.contains(e) by {
                    let k = choose|k: int| 0 <= k < before.len() && before[k] == e;
                    assert(edges@[k] == e);
                }
                assert forall|k: int| 0 <= k < edges@.len() implies old(edges)@.contains(
                    #[trigger] edges@[k],
                ) || exists|n: Position2d|
                    others@.contains(n) && edges@[k] == MazeEdge::of(*pos, n) by {
                    if k < before.len() {
                        assert(edges@[k] == before[k]);
                    } else {
                        assert(others@.contains(other));
                    }
                }
            }
        }
        i += 1;
    }
    proof {
        assert forall|n: Position2d|
            others@.contains(n) && pos.spec_before(n) implies edges@.contains(
            #[trigger] MazeEdge::of(*pos, n),
        ) by {
            let j = choose|j: int| 0 <= j < others@.len() && others@[j] == n;
            assert(edges@.contains(MazeEdge::of(*pos, others@[j])));
        }
    }
}

/// Takes the entry at `ind` out of the list; the others stay.
fn take_pair(edges: &mut Vec<MazeEdge>, ind: usize) -> (edge: MazeEdge)
    requires
        ind < old(edges)@.len(),
    ensures
        edge == old(edges)@[ind as int],
        final(edges)@.len() == old(edges)@.len() - 1,
        forall|e: MazeEdge| old(edges)@.contains(e) && e != edge ==> final(edges)@.contains(e),
        forall|k: int|
            0 <= k < final(edges)@.len() ==> old(edges)@.contains(#[trigger] final(edges)@[k]),
{
    let ghost before = edges@;
    let edge = edges.swap_remove(ind);
    proof {
        assert forall|e: MazeEdge| before.contains(e) && e != edge implies edges@.contains(e) by {
            let k = choose|k: int| 0 <= k < before.len() && before[k] == e;
            if k == before.len() - 1 {
                assert(edges@[ind as int] == e);
            } else {
                assert(edges@[k] == e);
            }
        }
        assert forall|k: int| 0 <= k < edges@.len() implies before.contains(
            #[trigger] edges@[k],
        ) by {
            if k == ind {
                assert(before[before.len() - 1] == edges@[k]);
            } else {
                assert(before[k] == edges@[k]);
            }
        }
    }
    edge
}

/// Where every related pair is in one set, so are the two ends of a walk.
proof fn lemma_walk_in_one_set(
    union: &Union,
    rel: Set<(Position2d, Position2d)>,
    walk: Seq<Position2d>,
    k: int,
)
    requires
        is_walk(rel, walk),
        0 <= k < walk.len(),
        union.contains(walk[0]),
        forall|a: Position2d, b: Position2d| #[trigger] rel.contains((a, b)) ==> union.same(a, b),
    ensures
        union.same(walk[0], walk[k]),
    decreases k,
{
    if k > 0 {
        lemma_walk_in_one_set(union, rel, walk, k - 1);
        assert(step_at(rel, walk, k - 1));
    }
}

/// Where all neighbours in a connected grid are in one set, there is one
/// set.
proof fn lemma_neighbors_in_one_set<G: Grid2d>(grid: &G, union: &Union)
    requires
        grid.valid(),
        is_connected(grid),
        union.wf(),
        forall|p: Position2d| union.contains(p) <==> grid.cells().contains(p),
        forall|u: Position2d, v: Position2d| #[trigger]
            grid.neighbors_of(u).contains(v) ==> union.same(u, v),
        grid.cells().len() > 0,
    ensures
        union.count() == 1,
{
    grid.lemma_graph();
    let root = grid.cells().choose();
    assert(grid.cells().contains(root)) by {
        if !grid.cells().contains(root) {
            assert(grid.cells() =~= Set::<Position2d>::empty());
        }
    }
    assert forall|b: Position2d| union.contains(b) implies #[trigger] union.same(root, b) by {
        assert(joined(adjacency(grid), root, b));
        let walk = choose|walk: Seq<Position2d>| #[trigger]
            walk_between(adjacency(grid), walk, root, b);
        lemma_walk_in_one_set(union, adjacency(grid), walk, walk.len() - 1);
    }
    union.lemma_all_same(root);
}

impl KruskalMazeGenerator {
    /// Opens the passages of a perfect maze in a grid that has none, and
    /// hands back the sets that the cells were kept in while it did so: at
    /// the end all cells are in one set.
    pub fn join_sets<G: Grid2d>(grid: &mut G, rng: &mut RandomSource) -> (sets: Union)
        requires
            old(grid).valid(),
            is_connected(old(grid)),
            is_blank(old(grid)),
        ensures
            final(grid).valid(),
            same_shape(final(grid), old(grid)),
            is_perfect(final(grid)),
            sets.wf(),
            forall|p: Position2d| sets.contains(p) <==> final(grid).cells().contains(p),
            sets.count() == if final(grid).cells().len() > 0 {
                1nat
            } else {
                0nat
            },
    {
        let all_pos = grid.all_cells_pos_set();
        let mut neighbors: Vec<Position2d> = Vec::new();
        let mut edges: Vec<MazeEdge> = Vec::new();
        // Find and save all neighbors(edges) in the maze.
        let total = all_pos.len();
        let mut i: usize = 0;
        while i < total
            invariant
                grid.valid(),
                all_pos.wf(),
                all_pos@ == grid.cells(),
                total == all_pos.order().len(),
                i <= total,
                pairs_are_neighbors(&*grid, edges@),
                forall|j: int, n: Position2d|
                    0 <= j < i && #[trigger] grid.neighbors_of(all_pos.order()[j]).contains(n)
                        && all_pos.order()[j].spec_before(n) ==> edges@.contains(
                        MazeEdge::of(all_pos.order()[j], n),
                    ),
            decreases total - i,
        {
            let pos = all_pos.get(i);
            neighbors.clear();
            grid.append_neighbors(&pos, &mut neighbors);
            let ghost before = edges@;
            note_later_pairs(&mut edges, &pos, &neighbors);
            proof {
                grid.lemma_graph();
                assert(neighbors@ =~= grid.neighbors_of(pos));
                assert forall|k: int| 0 <= k < edges@.len() implies grid.neighbors_of(
                    (#[trigger] edges@[k]).low,
                ).contains(edges@[k].high) by {
                    let e = edges@[k];
                    if before.contains(e) {
                        let j = choose|j: int| 0 <= j < before.len() && before[j] == e;
                        assert(before[j] == e);
                    } else {
                        let n = choose|n: Position2d|
                            neighbors@.contains(n) && e == MazeEdge::of(pos, n);
                        assert(grid.neighbors_of(pos).contains(n));
                    }
                }
            }
            i += 1;
        }
        let mut cell_pos_union = Union::from_set(&all_pos);
        proof {
            grid.lemma_graph();
            all_pos.lemma_len();
            assert forall|a: Position2d, b: Position2d| #[trigger]
                cell_pos_union.same(a, b) implies joined(grid.links(), a, b) by {
                lemma_joined_self(grid.links(), a);
            }
            assert forall|u: Position2d, v: Position2d| #[trigger]
                grid.neighbors_of(u).contains(v) implies edges@.contains(MazeEdge::of(u, v))
                || cell_pos_union.same(u, v) by {
                if u.spec_before(v) {
                    let j = choose|j: int|
                        0 <= j < all_pos.order().len() && all_pos.order()[j] == u;
                    assert(grid.neighbors_of(all_pos.order()[j]).contains(v));
                } else {
                    let j = choose|j: int|
                        0 <= j < all_pos.order().len() && all_pos.order()[j] == v;
                    assert(grid.neighbors_of(all_pos.order()[j]).contains(u));
                    assert(v.spec_before(u));
                    assert(MazeEdge::of(u, v) == MazeEdge::of(v, u));
                }
            }
        }
        while cell_pos_union.sets_n() > 1
            invariant
                grid.valid(),
                same_shape(&*grid, &*old(grid)),
                is_connected(&*grid),
                cell_pos_union.wf(),
                forall|p: Position2d| cell_pos_union.contains(p) <==> grid.cells().contains(p),
                cell_pos_union.elements().len() == grid.cells().len(),
                forall|a: Position2d, b: Position2d| #[trigger]
                    cell_pos_union.same(a, b) ==> joined(grid.links(), a, b),
                forall|a: Position2d, b: Position2d| #[trigger]
                    grid.links().contains((a, b)) ==> cell_pos_union.same(a, b),
                grid.links_n() + cell_pos_union.count() == grid.cells().len(),
                pairs_are_neighbors(&*grid, edges@),
                forall|u: Position2d, v: Position2d| #[trigger]
                    grid.neighbors_of(u).contains(v) ==> edges@.contains(MazeEdge::of(u, v))
                        || cell_pos_union.same(u, v),
            ensures
                cell_pos_union.count() <= 1,
            decreases edges@.len(),
        {
            proof {
                grid.lemma_graph();
            }
            // Select an edge randomly.
            let Some(edge_ind) = rng.choose_index(edges.len()) else {
                proof {
                    assert(grid.cells().len() > 0) by {
                        cell_pos_union.lemma_count();
                    }
                    assert forall|u: Position2d, v: Position2d| #[trigger]
                        grid.neighbors_of(u).contains(v) implies cell_pos_union.same(u, v) by {
                        if edges@.contains(MazeEdge::of(u, v)) {
                            let k = choose|k: int|
                                0 <= k < edges@.len() && edges@[k] == MazeEdge::of(u, v);
                        }
                    }
                    lemma_neighbors_in_one_set(&*grid, &cell_pos_union);
                }
                break ;
            };
            let ghost union_before = cell_pos_union;
            let ghost links_before = grid.links();
            let ghost edges_before = edges@;
            let edge = take_pair(&mut edges, edge_ind);
            proof {
                assert(grid.neighbors_of(edge.low).contains(edge.high));
            }
            if cell_pos_union.merge(&edge.low, &edge.high) {
                // The edge can connect two different areas in the current
                // maze, connect it to merge these two areas.
                let ghost grid_before = *grid;
                grid.connect_to(&edge.low, &edge.high);
                proof {
                    lemma_same_shape_adjacency(&*grid, &grid_before);
                    let links = grid.links();
                    assert(links == with_pair(links_before, edge.low, edge.high));
                    assert forall|a: Position2d, b: Position2d| #[trigger]
                        cell_pos_union.same(a, b) implies joined(links, a, b) by {
                        lemma_joined_step(links, edge.low, edge.high);
                        lemma_joined_step(links, edge.high, edge.low);
                        if union_before.same(a, b) {
                            lemma_joined_grows(links_before, links, a, b);
                        } else if union_before.same(a, edge.low) && union_before.same(
                            edge.high,
                            b,
                        ) {
                            lemma_joined_grows(links_before, links, a, edge.low);
                            lemma_joined_grows(links_before, links, edge.high, b);
                            lemma_joined_trans(links, a, edge.low, edge.high);
                            lemma_joined_trans(links, a, edge.high, b);
                        } else {
                            lemma_joined_grows(links_before, links, a, edge.high);
                            lemma_joined_grows(links_before, links, edge.low, b);
                            lemma_joined_trans(links, a, edge.high, edge.low);
                            lemma_joined_trans(links, a, edge.low, b);
                        }
                    }
                    assert forall|a: Position2d, b: Position2d| #[trigger]
                        links.contains((a, b)) implies cell_pos_union.same(a, b) by {
                        if links_before.contains((a, b)) {
                            assert(union_before.same(a, b));
                        } else {
                            assert(union_before.same(edge.low, edge.low));
                            assert(union_before.same(edge.high, edge.high));
                        }
                    }
                    assert(!links_before.contains((edge.low, edge.high)));
                }
            }
            proof {
                assert forall|u: Position2d, v: Position2d| #[trigger]
                    grid.neighbors_of(u).contains(v) implies edges@.contains(MazeEdge::of(u, v))
                    || cell_pos_union.same(u, v) by {
                    if !union_before.same(u, v) {
                        assert(edges_before.contains(MazeEdge::of(u, v)));
                        if MazeEdge::of(u, v) == edge {
                            assert(union_before.same(u, u) && union_before.same(v, v));
                        }
                    }
                }
                assert forall|k: int| 0 <= k < edges@.len() implies grid.neighbors_of(
                    (#[trigger] edges@[k]).low,
                ).contains(edges@[k].high) by {
                    let e = edges@[k];
                    assert(edges_before.contains(e));
                    let j = choose|j: int| 0 <= j < edges_before.len() && edges_before[j] == e;
                    assert(edges_before[j] == e);
                }
            }
        }
        proof {
            grid.lemma_graph();
            cell_pos_union.lemma_count();
            if grid.cells().len() == 0 {
                grid.cells().lemma_len0_is_empty();
                cell_pos_union.lemma_no_set();
            } else {
                if cell_pos_union.count() == 0 {
                    cell_pos_union.lemma_no_set();
                }
                assert forall|a: Position2d, b: Position2d|
                    grid.cells().contains(a) && grid.cells().contains(b) implies #[trigger] joined(
                    grid.links(),
                    a,
                    b,
                ) by {
                    cell_pos_union.lemma_one_set(a, b);
                }
            }
        }
        cell_pos_union
    }
}

impl Maze2dGenerator for KruskalMazeGenerator {
    fn generate_2d<G: Grid2d>(&self, grid: &mut G, rng: &mut RandomSource) {
        let _ = Self::join_sets(grid, rng);
    }
}

/// Every cell but `root` has a passage to a cell of lower rank.
pub open spec fn flows_down<G: Grid2d>(
    grid: &G,
    root: Position2d,
    rank: spec_fn(Position2d) -> nat,
) -> bool {
    forall|p: Position2d|
        #![trigger grid.cells().contains(p)]
        grid.cells().contains(p) && p != root ==> exists|q: Position2d| #[trigger]
            grid.links().contains((p, q)) && rank(q) < rank(p)
}

/// Where every cell but `root` has a passage to a cell of lower rank, every
/// cell can reach `root`.
pub proof fn lemma_flow_joins<G: Grid2d>(
    grid: &G,
    root: Position2d,
    rank: spec_fn(Position2d) -> nat,
    p: Position2d,
)
    requires
        grid.valid(),
        flows_down(grid, root, rank),
        grid.cells().contains(p),
    ensures
        joined(grid.links(), p, root),
    decreases rank(p),
{
    if p == root {
        lemma_joined_self(grid.links(), p);
    } else {
        grid.lemma_graph();
        let q = choose|q: Position2d| #[trigger]
            grid.links().contains((p, q)) && rank(q) < rank(p);
        assert(grid.neighbors_of(p).contains(q));
        lemma_flow_joins(grid, root, rank, q);
        lemma_joined_step(grid.links(), p, q);
        lemma_joined_trans(grid.links(), p, q, root);
    }
}

/// Where every cell but `root` has a passage to a cell of lower rank, and
/// there is one passage fewer than cells, the maze is perfect.
pub proof fn lemma_flow_perfect<G: Grid2d>(
    grid: &G,
    root: Position2d,
    rank: spec_fn(Position2d) -> nat,
)
    requires
        grid.valid(),
        flows_down(grid, root, rank),
        grid.cells().contains(root),
        grid.links_n() + 1 == grid.cells().len(),
    ensures
        is_perfect(grid),
{
    grid.lemma_graph();
    assert(symmetric(grid.links()));
    assert forall|p: Position2d| grid.cells().contains(p) implies #[trigger] joined(
        grid.links(),
        root,
        p,
    ) by {
        lemma_flow_joins(grid, root, rank, p);
        crate::graph::lemma_joined_sym(grid.links(), p, root);
    }
    lemma_all_joined_from(grid.cells(), grid.links(), root);
}

} // verus!
