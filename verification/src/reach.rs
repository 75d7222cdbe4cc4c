//! Whether every cell of a grid can be reached from every other.

use crate::gene::{lemma_all_seen, lemma_closed_is_all};
use crate::graph::{
    joined, lemma_all_joined_from, lemma_joined_self, lemma_joined_step, lemma_joined_trans,
    symmetric,
};
use crate::maze::{adjacency, is_connected, Grid2d, Position2d};
use crate::pos_set::PosSet;
use vstd::prelude::*;

verus! {

/// Every cell visited has its neighbours among the cells visited and the
/// cells that wait in the list from `head` on.
pub open spec fn borders_wait<G: Grid2d>(
    grid: &G,
    visited: Set<Position2d>,
    list: Seq<Position2d>,
    head: int,
) -> bool {
    forall|v: Position2d, n: Position2d|
        visited.contains(v) && #[trigger] grid.neighbors_of(v).contains(n) ==> visited.contains(n)
            || exists|i: int| head <= i < list.len() && list[i] == n
}

/// Floods the grid from its first cell, going from neighbour to neighbour,
/// and says whether the flood has reached every cell. A grid without cells
/// counts as connected.
pub fn check_connected<G: Grid2d>(grid: &G) -> (connected: bool)
    requires
        grid.valid(),
    ensures
        connected == is_connected(grid),
{
    let all = grid.all_cells_pos_set();
    let cells_n = grid.cells_n();
    proof {
        grid.lemma_graph();
        all.lemma_len();
    }
    if all.len() == 0 {
        proof {
            grid.cells().lemma_len0_is_empty();
        }
        return true;
    }
    let start_pos = all.get(0);
    let mut visited_pos = PosSet::new();
    let mut visit_list: Vec<Position2d> = Vec::new();
    visit_list.push(start_pos);
    let mut head: usize = 0;
    let mut neighbors: Vec<Position2d> = Vec::new();
    let ghost adj = adjacency(grid);
    proof {
        lemma_joined_self(adj, start_pos);
    }
    while head < visit_list.len()
        invariant
            grid.valid(),
            adj == adjacency(grid),
            cells_n == grid.cells().len(),
            grid.cells().contains(start_pos),
            visited_pos.wf(),
            visited_pos@.subset_of(grid.cells()),
            head <= visit_list@.len(),
            visit_list@.len() > 0,
            visit_list@[0] == start_pos,
            head > 0 ==> visited_pos@.contains(start_pos),
            forall|v: Position2d| visited_pos@.contains(v) ==> #[trigger] joined(adj, start_pos, v),
            forall|i: int|
                0 <= i < visit_list@.len() ==> grid.cells().contains(#[trigger] visit_list@[i])
                    && joined(adj, start_pos, visit_list@[i]),
            borders_wait(grid, visited_pos@, visit_list@, head as int),
        decreases cells_n - visited_pos@.len(), visit_list@.len() - head,
    {
        let cur_pos = visit_list[head];
        head += 1;
        let ghost visited_before = visited_pos@;
        let ghost list_before = visit_list@;
        proof {
            grid.lemma_graph();
            visited_pos.lemma_len();
            vstd::set_lib::lemma_len_subset(visited_pos@, grid.cells());
        }
        if visited_pos.insert(cur_pos) {
            proof {
                visited_pos.lemma_len();
                vstd::set_lib::lemma_len_subset(visited_pos@, grid.cells());
            }
            neighbors.clear();
            grid.append_neighbors(&cur_pos, &mut neighbors);
            assert(neighbors@ =~= grid.neighbors_of(cur_pos));
            let mut i: usize = 0;
            while i < neighbors.len()
                invariant
                    i <= neighbors@.len(),
                    grid.valid(),
                    adj == adjacency(grid),
                    neighbors@ == grid.neighbors_of(cur_pos),
                    visited_pos.wf(),
                    visited_pos@ == visited_before.insert(cur_pos),
                    joined(adj, start_pos, cur_pos),
                    head <= list_before.len(),
                    list_before.len() <= visit_list@.len(),
                    forall|k: int| 0 <= k < list_before.len() ==> visit_list@[k] == list_before[k],
                    forall|k: int|
                        0 <= k < visit_list@.len() ==> grid.cells().contains(
                            #[trigger] visit_list@[k],
                        ) && joined(adj, start_pos, visit_list@[k]),
                    forall|j: int|
                        0 <= j < i ==> visited_pos@.contains(#[trigger] neighbors@[j]) || exists|
                            k: int,
                        | head <= k < visit_list@.len() && visit_list@[k] == neighbors@[j],
                decreases neighbors@.len() - i,
            {
                let next = neighbors[i];
                let ghost list_now = visit_list@;
                if !visited_pos.contains(&next) {
                    proof {
                        grid.lemma_graph();
                        assert(grid.neighbors_of(cur_pos).contains(next));
                        lemma_joined_step(adj, cur_pos, next);
                        lemma_joined_trans(adj, start_pos, cur_pos, next);
                    }
                    visit_list.push(next);
                    proof {
                        assert(visit_list@[list_now.len() as int] == next);
                        assert forall|j: int| 0 <= j < i + 1 implies visited_pos@.contains(
                            #[trigger] neighbors@[j],
                        ) || exists|k: int|
                            head <= k < visit_list@.len() && visit_list@[k] == neighbors@[j] by {
                            if j < i && !visited_pos@.contains(neighbors@[j]) {
                                let k = choose|k: int|
                                    head <= k < list_now.len() && list_now[k] == neighbors@[j];
                                assert(visit_list@[k] == neighbors@[j]);
                            }
                        }
                    }
                }
                i += 1;
            }
            proof {
                assert forall|v: Position2d, n: Position2d|
                    visited_pos@.contains(v) && #[trigger] grid.neighbors_of(v).contains(
                        n,
                    ) implies visited_pos@.contains(n) || exists|k: int|
                    head <= k < visit_list@.len() && visit_list@[k] == n by {
                    if v == cur_pos {
                        let j = choose|j: int| 0 <= j < neighbors@.len() && neighbors@[j] == n;
                        assert(visited_pos@.contains(neighbors@[j]) || exists|k: int|
                            head <= k < visit_list@.len() && visit_list@[k] == neighbors@[j]);
                    } else if !visited_before.contains(n) {
                        let k = choose|k: int|
                            head - 1 <= k < list_before.len() && list_before[k] == n;
                        if k == head - 1 {
                            assert(n == cur_pos);
                        } else {
                            assert(visit_list@[k] == n);
                        }
                    }
                }
            }
        } else {
            proof {
                assert forall|v: Position2d, n: Position2d|
                    visited_pos@.contains(v) && #[trigger] grid.neighbors_of(v).contains(
                        n,
                    ) implies visited_pos@.contains(n) || exists|k: int|
                    head <= k < visit_list@.len() && visit_list@[k] == n by {
                    if !visited_pos@.contains(n) {
                        let k = choose|k: int|
                            head - 1 <= k < list_before.len() && list_before[k] == n;
                        assert(k != head - 1);
                    }
                }
            }
        }
    }
    proof {
        grid.lemma_graph();
        visited_pos.lemma_len();
        assert(symmetric(adj));
        if visited_pos@.len() == cells_n {
            lemma_all_seen(grid, visited_pos@);
            lemma_all_joined_from(grid.cells(), adj, start_pos);
        } else if is_connected(grid) {
            assert(visited_pos@.contains(start_pos));
            if visited_pos@.len() == 0 {
                visited_pos@.lemma_len0_is_empty();
            }
            lemma_closed_is_all(grid, visited_pos@);
        }
    }
    visited_pos.len() == cells_n
}

} // verus!
