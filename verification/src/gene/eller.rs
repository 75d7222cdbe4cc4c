//! Eller's algorithm: a maze made layer by layer, with only the sets of the
//! current layer in memory.

use crate::gene::union::Union;
use crate::gene::pick;
use crate::graph::{
    joined, lemma_joined_grows, lemma_joined_self, lemma_joined_step, lemma_joined_sym,
    lemma_joined_trans, symmetric, with_pair,
};
use crate::maze::{is_blank, is_perfect, same_shape, Grid2d, LayerGrid, Position2d};
use crate::random::RandomSource;
use vstd::prelude::*;

verus! {

/// A generator that works through a grid layer by layer.
pub trait LayerMazeGenerator {
    /// Opens passages in a grid that has none until they make a perfect
    /// maze.
    fn generate_layer<G: LayerGrid>(&self, grid: &mut G, rng: &mut RandomSource)
        requires
            old(grid).valid(),
            is_blank(old(grid)),
        ensures
            final(grid).valid(),
            same_shape(final(grid), old(grid)),
            is_perfect(final(grid)),
    ;
}

/// Some element of the partition can be reached from `pos`.
pub open spec fn anchored(
    links: Set<(Position2d, Position2d)>,
    union: &Union,
    pos: Position2d,
) -> bool {
    exists|u: Position2d| #[trigger] union.contains(u) && joined(links, pos, u)
}

/// The state between two steps of the algorithm. `done` holds the cells
/// that have been dealt with: none lies after `layer`, and those in `layer`
/// are the elements of the partition. Elements of one set can reach each
/// other, every cell dealt with can reach an element, passages run between
/// such cells only, a passage between two elements keeps them in one set, and
/// passages and sets together are as many as the cells dealt with.
pub open spec fn layer_forest<G: LayerGrid>(
    grid: &G,
    union: &Union,
    done: Set<Position2d>,
    layer: nat,
) -> bool {
    &&& grid.valid()
    &&& union.wf()
    &&& done.finite()
    &&& done.subset_of(grid.cells())
    &&& forall|a: Position2d, b: Position2d| #[trigger]
        union.same(a, b) ==> joined(grid.links(), a, b)
    &&& forall|p: Position2d| done.contains(p) ==> #[trigger] anchored(grid.links(), union, p)
    &&& grid.links_n() + union.count() == done.len()
    &&& forall|a: Position2d, b: Position2d| #[trigger]
        grid.links().contains((a, b)) ==> done.contains(a) && done.contains(b)
    &&& forall|u: Position2d| #[trigger] union.contains(u) ==> done.contains(u) && u.0 == layer
    &&& forall|a: Position2d, b: Position2d| #[trigger]
        grid.links().contains((a, b)) && union.contains(a) && union.contains(b) ==> union.same(
            a,
            b,
        )
    &&& forall|p: Position2d| #[trigger] done.contains(p) ==> p.0 <= layer && (p.0 == layer
        ==> union.contains(p))
    &&& forall|p: Position2d| #[trigger]
        grid.cells().contains(p) && p.0 < layer ==> done.contains(p)
}

/// Makes a maze one layer at a time. Within a layer, a cell is joined at
/// random to the one before it where the two are not joined yet, and always
/// so in the last layer; from every set of joined cells at least one cell
/// opens a passage to the next layer.
#[derive(Debug, Clone, Copy, PartialEq, Eq, PartialOrd, Ord, Hash, Default)]
pub struct EllerMazeGenerator;

impl EllerMazeGenerator {
    /// Deals with the cells of one layer from first to last: each becomes
    /// an element, in a set of its own unless a passage from the layer before
    /// has reached it, and is joined to the cell before it where the two are
    /// in different sets and the draw, or `is_last`, says so.
    fn join_layer<G: LayerGrid>(
        grid: &mut G,
        layer_union: &mut Union,
        layer_ind: usize,
        is_last: bool,
        rng: &mut RandomSource,
        Ghost(done): Ghost<Set<Position2d>>,
    ) -> (all: Ghost<Set<Position2d>>)
        requires
            layer_forest(old(grid), old(layer_union), done, layer_ind as nat),
            layer_ind < old(grid).layer_count(),
        ensures
            layer_forest(final(grid), final(layer_union), all@, layer_ind as nat),
            same_shape(final(grid), old(grid)),
            forall|p: Position2d| #[trigger]
                final(grid).cells().contains(p) && p.0 == layer_ind ==> final(layer_union).contains(p),
            is_last ==> forall|p: Position2d, q: Position2d|
                final(layer_union).contains(p) && final(layer_union).contains(q)
                    ==> #[trigger] final(layer_union).same(p, q),
    {
        let layer_cells_n = grid.cells_n_at(layer_ind);
        let ghost mut seen = done;
        let mut cell_ind: usize = 0;
        while cell_ind < layer_cells_n
            invariant
                layer_forest(&*grid, &*layer_union, seen, layer_ind as nat),
                same_shape(&*grid, &*old(grid)),
                layer_ind < grid.layer_count(),
                layer_cells_n == grid.layer_size(layer_ind as nat),
                cell_ind <= layer_cells_n,
                forall|p: Position2d| #[trigger]
                    grid.cells().contains(p) && p.0 == layer_ind && p.1 < cell_ind
                        ==> layer_union.contains(p),
                is_last ==> forall|p: Position2d| #[trigger]
                    layer_union.contains(p) && p.1 < cell_ind ==> layer_union.same(
                        Position2d(layer_ind, 0),
                        p,
                    ),
            decreases layer_cells_n - cell_ind,
        {
            let pos = Position2d(layer_ind, cell_ind);
            proof {
                grid.lemma_graph();
                grid.lemma_layers();
                assert(grid.cells().contains(pos));
            }
            let ghost union0 = *layer_union;
            let ghost seen0 = seen;
            layer_union.add(pos);
            proof {
                if !union0.contains(pos) {
                    seen = seen.insert(pos);
                }
                Self::lemma_added(&*grid, &union0, &*layer_union, seen0, seen, pos);
            }
            if let Some(last_neighbor) = grid.last_neighbor_pos(&pos) {
                let ghost union1 = *layer_union;
                layer_union.add(last_neighbor);
                proof {
                    assert(grid.cells().contains(last_neighbor));
                    Self::lemma_added(
                        &*grid,
                        &union1,
                        &*layer_union,
                        seen,
                        seen,
                        last_neighbor,
                    );
                }
                // If these two positions aren't in the same set, they can be
                // connected; in the last layer they must be, or some area of
                // the maze would stay apart.
                let ghost union2 = *layer_union;
                let united = layer_union.is_union(&pos, &last_neighbor).unwrap();
                let ghost union3 = *layer_union;
                proof {
                    Self::lemma_unchanged(
                        &*grid,
                        &union2,
                        &*layer_union,
                        seen,
                        layer_ind as nat,
                    );
                    assert(grid.neighbors_of(pos).contains(
                        Position2d(pos.0, (pos.1 - 1) as usize),
                    ));
                    assert(grid.neighbors_of(last_neighbor).contains(pos));
                }
                let should_connect = !united && (is_last || rng.ratio(1, 2));
                if should_connect {
                    // If connected, the sets they belong to are united too.
                    let ghost grid3 = *grid;
                    grid.connect_to(&last_neighbor, &pos);
                    layer_union.merge(&pos, &last_neighbor);
                    proof {
                        grid.lemma_layer_frame(&grid3);
                        Self::lemma_joined_sets(
                            &grid3,
                            &*grid,
                            &union3,
                            &*layer_union,
                            seen,
                            last_neighbor,
                            pos,
                        );
                    }
                }
                proof {
                    if is_last {
                        assert(layer_union.same(last_neighbor, pos));
                        assert forall|p: Position2d| #[trigger]
                            layer_union.contains(p) && p.1 < cell_ind + 1 implies layer_union.same(
                            Position2d(layer_ind, 0),
                            p,
                        ) by {
                            let first = Position2d(layer_ind, 0);
                            let known = if p.1 < cell_ind {
                                p
                            } else {
                                last_neighbor
                            };
                            assert(union0.contains(known) || known == pos);
                            assert(union0.same(first, known));
                            assert(union1.same(first, known));
                            assert(union2.same(first, known));
                            assert(union3.same(first, known));
                            assert(layer_union.same(first, known));
                            if p.1 >= cell_ind {
                                assert(p == pos);
                            }
                        }
                    }
                }
            } else {
                proof {
                    if is_last {
                        assert forall|p: Position2d| #[trigger]
                            layer_union.contains(p) && p.1 < cell_ind + 1 implies layer_union.same(
                            Position2d(layer_ind, 0),
                            p,
                        ) by {
                            assert(p == pos);
                        }
                    }
                }
            }
            proof {
                assert forall|p: Position2d| #[trigger]
                    grid.cells().contains(p) && p.0 == layer_ind && p.1 < cell_ind + 1 implies layer_union.contains(
                    p,
                ) by {
                    if p.1 < cell_ind {
                        assert(union0.contains(p));
                    } else {
                        assert(p == pos);
                    }
                }
            }
            cell_ind += 1;
        }
        proof {
            grid.lemma_layers();
            if is_last {
                assert forall|p: Position2d, q: Position2d|
                    layer_union.contains(p) && layer_union.contains(q) implies #[trigger] layer_union.same(
                    p,
                    q,
                ) by {
                    assert(layer_union.same(Position2d(layer_ind, 0), p));
                    assert(layer_union.same(Position2d(layer_ind, 0), q));
                }
            }
        }
        Ghost(seen)
    }

    /// The state holds on after `add`.
    proof fn lemma_added<G: LayerGrid>(
        grid: &G,
        before: &Union,
        after: &Union,
        seen_before: Set<Position2d>,
        seen: Set<Position2d>,
        pos: Position2d,
    )
        requires
            layer_forest(grid, before, seen_before, pos.0 as nat),
            grid.cells().contains(pos),
            seen == if before.contains(pos) {
                seen_before
            } else {
                seen_before.insert(pos)
            },
            after.wf(),
            after.merged() == before.merged(),
            forall|p: Position2d| after.contains(p) <==> before.contains(p) || p == pos,
            forall|a: Position2d, b: Position2d|
                before.contains(a) && before.contains(b) ==> (#[trigger] after.same(a, b)
                    <==> before.same(a, b)),
            before.contains(pos) ==> after.count() == before.count(),
            !before.contains(pos) ==> {
                &&& after.count() == before.count() + 1
                &&& forall|other: Position2d|
                    #![trigger after.same(pos, other)]
                    #![trigger after.same(other, pos)]
                    (after.same(pos, other) <==> other == pos) && (after.same(other, pos)
                        <==> other == pos)
            },
        ensures
            layer_forest(grid, after, seen, pos.0 as nat),
    {
        let links = grid.links();
        assert forall|a: Position2d, b: Position2d| #[trigger] after.same(a, b) implies joined(
            links,
            a,
            b,
        ) by {
            if before.contains(a) && before.contains(b) {
                assert(before.same(a, b));
            } else {
                lemma_joined_self(links, a);
            }
        }
        assert forall|p: Position2d| seen.contains(p) implies #[trigger] anchored(
            links,
            after,
            p,
        ) by {
            if seen_before.contains(p) {
                assert(anchored(links, before, p));
                let u = choose|u: Position2d| #[trigger]
                    before.contains(u) && joined(links, p, u);
                assert(after.contains(u) && joined(links, p, u));
            } else {
                lemma_joined_self(links, p);
                assert(after.contains(p) && joined(links, p, p));
            }
        }
        assert forall|a: Position2d, b: Position2d| #[trigger]
            links.contains((a, b)) && after.contains(a) && after.contains(b) implies after.same(
            a,
            b,
        ) by {
            assert(seen_before.contains(a) && seen_before.contains(b));
            assert(before.contains(a) && before.contains(b));
            assert(before.same(a, b));
        }
    }

    /// The state holds on for a partition that has all of another's sets.
    proof fn lemma_unchanged<G: LayerGrid>(
        grid: &G,
        before: &Union,
        after: &Union,
        seen: Set<Position2d>,
        layer: nat,
    )
        requires
            layer_forest(grid, before, seen, layer),
            after.wf(),
            after.unchanged(before),
        ensures
            layer_forest(grid, after, seen, layer),
    {
        let links = grid.links();
        assert forall|a: Position2d, b: Position2d| #[trigger] after.same(a, b) implies joined(
            links,
            a,
            b,
        ) by {
            assert(before.same(a, b));
        }
        assert forall|p: Position2d| seen.contains(p) implies #[trigger] anchored(
            links,
            after,
            p,
        ) by {
            assert(anchored(links, before, p));
            let u = choose|u: Position2d| #[trigger] before.contains(u) && joined(links, p, u);
            assert(after.contains(u) && joined(links, p, u));
        }
        assert forall|u: Position2d| #[trigger] after.contains(u) implies seen.contains(u) && u.0
            == layer by {
            assert(before.contains(u));
        }
        assert forall|a: Position2d, b: Position2d| #[trigger]
            links.contains((a, b)) && after.contains(a) && after.contains(b) implies after.same(
            a,
            b,
        ) by {
            assert(before.contains(a) && before.contains(b));
            assert(before.same(a, b));
        }
        assert forall|p: Position2d| #[trigger] seen.contains(p) implies p.0 <= layer && (p.0
            == layer ==> after.contains(p)) by {
            if p.0 == layer {
                assert(before.contains(p));
            }
        }
    }

    /// The state holds on after two neighbours in different sets of the
    /// layer have been joined by a passage and their sets merged.
    proof fn lemma_joined_sets<G: LayerGrid>(
        grid_before: &G,
        grid: &G,
        before: &Union,
        after: &Union,
        seen: Set<Position2d>,
        from: Position2d,
        to: Position2d,
    )
        requires
            layer_forest(grid_before, before, seen, to.0 as nat),
            before.contains(from),
            before.contains(to),
            !before.same(from, to),
            grid_before.neighbors_of(from).contains(to),
            grid.valid(),
            grid.cells() == grid_before.cells(),
            grid.links() == with_pair(grid_before.links(), from, to),
            grid.links_n() == grid_before.links_n() + if !grid_before.links().contains(
                (from, to),
            ) {
                1nat
            } else {
                0nat
            },
            after.wf(),
            forall|p: Position2d| after.contains(p) == before.contains(p),
            after.count() == before.count() - 1,
            forall|a: Position2d, b: Position2d| #[trigger]
                after.same(a, b) <==> before.same(a, b) || (before.same(a, to) && before.same(
                    from,
                    b,
                )) || (before.same(a, from) && before.same(to, b)),
        ensures
            layer_forest(grid, after, seen, to.0 as nat),
    {
        let old_links = grid_before.links();
        let links = grid.links();
        lemma_joined_step(links, from, to);
        lemma_joined_step(links, to, from);
        assert forall|a: Position2d, b: Position2d| #[trigger] after.same(a, b) implies joined(
            links,
            a,
            b,
        ) by {
            if before.same(a, b) {
                lemma_joined_grows(old_links, links, a, b);
            } else if before.same(a, to) && before.same(from, b) {
                lemma_joined_grows(old_links, links, a, to);
                lemma_joined_grows(old_links, links, from, b);
                lemma_joined_trans(links, a, to, from);
                lemma_joined_trans(links, a, from, b);
            } else {
                lemma_joined_grows(old_links, links, a, from);
                lemma_joined_grows(old_links, links, to, b);
                lemma_joined_trans(links, a, from, to);
                lemma_joined_trans(links, a, to, b);
            }
        }
        assert forall|p: Position2d| seen.contains(p) implies #[trigger] anchored(
            links,
            after,
            p,
        ) by {
            assert(anchored(old_links, before, p));
            let u = choose|u: Position2d| #[trigger]
                before.contains(u) && joined(old_links, p, u);
            lemma_joined_grows(old_links, links, p, u);
            assert(after.contains(u) && joined(links, p, u));
        }
        assert forall|a: Position2d, b: Position2d| #[trigger]
            links.contains((a, b)) && after.contains(a) && after.contains(b) implies after.same(
            a,
            b,
        ) by {
            if old_links.contains((a, b)) {
                assert(before.same(a, b));
            } else {
                assert(before.same(from, from) && before.same(to, to));
            }
        }
        assert(!old_links.contains((from, to)));
    }
}

/// The place `(k, j)` is a place in one of the lists.
pub open spec fn listed(sets: Seq<Vec<Position2d>>, k: int, j: int) -> bool {
    0 <= k < sets.len() && 0 <= j < sets[k]@.len()
}

/// `v` lies below one of the listed positions that come before the place
/// `(g, i)`.
pub open spec fn dug_before<G: LayerGrid>(
    grid: &G,
    sets: Seq<Vec<Position2d>>,
    g: int,
    i: int,
    v: Position2d,
) -> bool {
    exists|k: int, j: int|
        listed(sets, k, j) && (k < g || (k == g && j < i)) && #[trigger] grid.below(
            sets[k]@[j],
        ).contains(v)
}

/// What stays as it is while passages are opened from one layer to the
/// next: the lists hold the sets of the layer's partition, whose elements
/// are the layer's cells, and the cells dealt with are those up to the layer.
#[verifier::opaque]
pub open spec fn dig_setting(
    cells: Set<Position2d>,
    union: &Union,
    sets: Seq<Vec<Position2d>>,
    done: Set<Position2d>,
    layer: nat,
) -> bool {
    &&& union.wf()
    &&& sets.len() == union.count()
    &&& forall|g: int| 0 <= g < sets.len() ==> (#[trigger] sets[g])@.len() > 0
    &&& forall|g: int, i: int| listed(sets, g, i) ==> union.contains(#[trigger] sets[g]@[i])
    &&& forall|p: Position2d|
        union.contains(p) ==> exists|g: int, i: int|
            listed(sets, g, i) && #[trigger] sets[g]@[i] == p
    &&& forall|g: int, i: int, h: int, j: int|
        listed(sets, g, i) && listed(sets, h, j) ==> (union.same(
            #[trigger] sets[g]@[i],
            #[trigger] sets[h]@[j],
        ) <==> g == h)
    &&& forall|g: int, i: int, h: int, j: int|
        listed(sets, g, i) && listed(sets, h, j) && #[trigger] sets[g]@[i]
            == #[trigger] sets[h]@[j] ==> g == h && i == j
    &&& done.finite()
    &&& done.subset_of(cells)
    &&& forall|u: Position2d| #[trigger] union.contains(u) ==> done.contains(u) && u.0 == layer
    &&& forall|p: Position2d| #[trigger] done.contains(p) ==> p.0 <= layer
    &&& forall|p: Position2d| #[trigger] cells.contains(p) && p.0 <= layer ==> done.contains(p)
}

/// The state while passages are opened from one layer to the next, before
/// the place `(g, i)` of the lists is dealt with. `next` is the partition
/// of the next layer's cells that a passage has reached, `seen` holds them
/// and the cells dealt with before.
#[verifier::opaque]
pub open spec fn dig_state<G: LayerGrid>(
    grid: &G,
    union: &Union,
    sets: Seq<Vec<Position2d>>,
    next: &Union,
    done: Set<Position2d>,
    seen: Set<Position2d>,
    layer: nat,
    g: int,
    i: int,
) -> bool {
    &&& grid.valid()
    &&& next.wf()
    &&& seen.finite()
    &&& seen.subset_of(grid.cells())
    &&& forall|a: Position2d, b: Position2d| #[trigger]
        union.same(a, b) ==> joined(grid.links(), a, b)
    &&& forall|p: Position2d| done.contains(p) ==> #[trigger] anchored(grid.links(), union, p)
    &&& forall|a: Position2d, b: Position2d| #[trigger]
        next.same(a, b) ==> joined(grid.links(), a, b)
    &&& forall|k: int, j: int|
        listed(sets, k, j) && k < g ==> anchored(grid.links(), next, #[trigger] sets[k]@[j])
    &&& grid.links_n() + sets.len() == seen.len()
    &&& forall|a: Position2d, b: Position2d| #[trigger]
        grid.links().contains((a, b)) ==> seen.contains(a) && seen.contains(b) && !(a.0 == layer
            + 1 && b.0 == layer + 1)
    &&& forall|v: Position2d| #[trigger]
        next.contains(v) ==> v.0 == layer + 1 && seen.contains(v) && dug_before(
            grid,
            sets,
            g,
            i,
            v,
        )
    &&& forall|p: Position2d| #[trigger] seen.contains(p) <==> done.contains(p) || next.contains(p)
}

impl EllerMazeGenerator {
    /// From every set of a layer's partition, opens a passage from a random
    /// cell, and from each other cell with one chance in three, to a random
    /// cell below it. The cells reached make the partition of the next layer:
    /// those reached from one set are in one set.
    fn dig_layer<G: LayerGrid>(
        grid: &mut G,
        layer_union: Union,
        layer_ind: usize,
        rng: &mut RandomSource,
        Ghost(done): Ghost<Set<Position2d>>,
    ) -> (next: (Union, Ghost<Set<Position2d>>))
        requires
            layer_forest(old(grid), &layer_union, done, layer_ind as nat),
            layer_ind + 1 < old(grid).layer_count(),
            forall|p: Position2d| #[trigger]
                old(grid).cells().contains(p) && p.0 == layer_ind ==> layer_union.contains(p),
        ensures
            layer_forest(final(grid), &next.0, next.1@, (layer_ind + 1) as nat),
            same_shape(final(grid), old(grid)),
    {
        let ghost layer = layer_ind as nat;
        let ghost cells = grid.cells();
        let mut next_layer_union = Union::new();
        // Get the final sets in which the positions are connected in the
        // current layer.
        let sets = layer_union.into_sets();
        let mut lower_neighbors: Vec<Position2d> = Vec::new();
        let ghost mut seen = done;
        proof {
            reveal(dig_setting);
            reveal(dig_state);
            grid.lemma_graph();
            assert(dig_setting(cells, &layer_union, sets@, done, layer));
            assert(dig_state(
                &*grid,
                &layer_union,
                sets@,
                &next_layer_union,
                done,
                seen,
                layer,
                0,
                0,
            ));
        }
        let mut g: usize = 0;
        while g < sets.len()
            invariant
                g <= sets@.len(),
                grid.valid(),
                next_layer_union.wf(),
                cells == grid.cells(),
                layer == layer_ind,
                layer_ind + 1 < grid.layer_count(),
                same_shape(&*grid, &*old(grid)),
                dig_setting(cells, &layer_union, sets@, done, layer),
                dig_state(
                    &*grid,
                    &layer_union,
                    sets@,
                    &next_layer_union,
                    done,
                    seen,
                    layer,
                    g as int,
                    0,
                ),
                next_layer_union.count() == g,
            decreases sets@.len() - g,
        {
            // Randomly choose a position to connect to next layer, to ensure
            // at least one position in the current set connects to it.
            proof {
                Self::lemma_listed(cells, &layer_union, sets@, done, layer, g as int, 0);
            }
            let set_len = sets[g].len();
            let dig_ind = rng.choose_index(set_len).unwrap();
            proof {
                Self::lemma_passed(
                    &*grid,
                    &layer_union,
                    sets@,
                    &next_layer_union,
                    done,
                    seen,
                    layer,
                    g as int,
                    0,
                    g as int,
                    0,
                );
            }
            let dig_pos = sets[g][dig_ind];
            let mut first_dig_target: Option<Position2d> = None;
            let mut i: usize = 0;
            while i < set_len
                invariant
                    g < sets@.len(),
                    set_len == sets@[g as int]@.len(),
                    i <= set_len,
                    dig_ind < set_len,
                    dig_pos == sets@[g as int]@[dig_ind as int],
                    grid.valid(),
                    next_layer_union.wf(),
                    cells == grid.cells(),
                    layer == layer_ind,
                    layer_ind + 1 < grid.layer_count(),
                    same_shape(&*grid, &*old(grid)),
                    dig_setting(cells, &layer_union, sets@, done, layer),
                    dig_state(
                        &*grid,
                        &layer_union,
                        sets@,
                        &next_layer_union,
                        done,
                        seen,
                        layer,
                        g as int,
                        i as int,
                    ),
                    next_layer_union.count() == g + if first_dig_target is Some {
                        1nat
                    } else {
                        0nat
                    },
                    first_dig_target is Some ==> next_layer_union.contains(first_dig_target->0)
                        && joined(grid.links(), sets@[g as int]@[0], first_dig_target->0),
                    i > dig_ind ==> first_dig_target is Some,
                decreases set_len - i,
            {
                let pos = sets[g][i];
                // Positions which aren't chosen also can connect to the next
                // layer randomly with a probability of 1/3.
                let should_dig = i == dig_ind || rng.ratio(1, 3);
                if should_dig {
                    // Randomly chosen a neighbor in the next layer, and
                    // connect to it.
                    lower_neighbors.clear();
                    grid.append_neighbors_lower_layer(&pos, &mut lower_neighbors);
                    proof {
                        grid.lemma_graph();
                        grid.lemma_layers();
                        assert(listed(sets@, g as int, i as int));
                        Self::lemma_listed(
                            cells,
                            &layer_union,
                            sets@,
                            done,
                            layer,
                            g as int,
                            i as int,
                        );
                        assert(lower_neighbors@ =~= grid.below(pos));
                    }
                    let dig_neighbor = pick(rng, &lower_neighbors).unwrap();
                    let ghost grid0 = *grid;
                    let ghost next0 = next_layer_union;
                    proof {
                        assert(grid.below(pos).contains(dig_neighbor));
                        Self::lemma_fresh_below(
                            &grid0,
                            &layer_union,
                            sets@,
                            &next0,
                            done,
                            seen,
                            layer,
                            g as int,
                            i as int,
                            dig_neighbor,
                        );
                    }
                    grid.connect_to(&pos, &dig_neighbor);
                    // Add the connected target neighbor in the current set to
                    // the same set.
                    next_layer_union.add(dig_neighbor);
                    let ghost next1 = next_layer_union;
                    let target = match first_dig_target {
                        Some(target) => target,
                        None => {
                            first_dig_target = Some(dig_neighbor);
                            dig_neighbor
                        },
                    };
                    next_layer_union.merge(&dig_neighbor, &target);
                    proof {
                        grid.lemma_layer_frame(&grid0);
                        Self::lemma_dug(
                            &grid0,
                            &*grid,
                            &layer_union,
                            sets@,
                            &next0,
                            &next1,
                            &next_layer_union,
                            done,
                            seen,
                            layer,
                            g as int,
                            i as int,
                            dig_neighbor,
                            target,
                        );
                        seen = seen.insert(dig_neighbor);
                    }
                } else {
                    proof {
                        Self::lemma_passed(
                            &*grid,
                            &layer_union,
                            sets@,
                            &next_layer_union,
                            done,
                            seen,
                            layer,
                            g as int,
                            i as int,
                            g as int,
                            i + 1,
                        );
                    }
                }
                i += 1;
            }
            proof {
                Self::lemma_set_dug(
                    &*grid,
                    &layer_union,
                    sets@,
                    &next_layer_union,
                    done,
                    seen,
                    layer,
                    g as int,
                    first_dig_target->0,
                );
            }
            g += 1;
        }
        proof {
            Self::lemma_layer_dug(
                &*grid,
                &layer_union,
                sets@,
                &next_layer_union,
                done,
                seen,
                layer,
            );
        }
        (next_layer_union, Ghost(seen))
    }

    /// A list is not empty, and a listed position is a cell of the layer.
    proof fn lemma_listed(
        cells: Set<Position2d>,
        union: &Union,
        sets: Seq<Vec<Position2d>>,
        done: Set<Position2d>,
        layer: nat,
        g: int,
        i: int,
    )
        requires
            dig_setting(cells, union, sets, done, layer),
            0 <= g < sets.len(),
        ensures
            sets[g]@.len() > 0,
            listed(sets, g, i) ==> cells.contains(sets[g]@[i]) && sets[g]@[i].0 == layer,
    {
        reveal(dig_setting);
        if listed(sets, g, i) {
            assert(union.contains(sets[g]@[i]));
        }
    }

    /// A cell below the position at the place `(g, i)` has not been reached
    /// by a passage, and no passage touches it.
    proof fn lemma_fresh_below<G: LayerGrid>(
        grid: &G,
        union: &Union,
        sets: Seq<Vec<Position2d>>,
        next: &Union,
        done: Set<Position2d>,
        seen: Set<Position2d>,
        layer: nat,
        g: int,
        i: int,
        to: Position2d,
    )
        requires
            dig_setting(grid.cells(), union, sets, done, layer),
            dig_state(grid, union, sets, next, done, seen, layer, g, i),
            listed(sets, g, i),
            grid.below(sets[g]@[i]).contains(to),
        ensures
            !next.contains(to),
            !seen.contains(to),
            grid.cells().contains(to),
            to.0 == layer + 1,
            grid.neighbors_of(sets[g]@[i]).contains(to),
            !grid.links().contains((sets[g]@[i], to)),
            seen.contains(sets[g]@[i]),
    {
        reveal(dig_setting);
        reveal(dig_state);
        grid.lemma_graph();
        grid.lemma_layers();
        let pos = sets[g]@[i];
        assert(union.contains(pos));
        if next.contains(to) {
            assert(dug_before(grid, sets, g, i, to));
            let (k, j) = choose|k: int, j: int|
                listed(sets, k, j) && (k < g || (k == g && j < i)) && #[trigger] grid.below(
                    sets[k]@[j],
                ).contains(to);
            assert(sets[k]@[j] == sets[g]@[i]);
        }
    }

    /// The state holds at a later place where nothing has happened in
    /// between.
    proof fn lemma_passed<G: LayerGrid>(
        grid: &G,
        union: &Union,
        sets: Seq<Vec<Position2d>>,
        next: &Union,
        done: Set<Position2d>,
        seen: Set<Position2d>,
        layer: nat,
        g: int,
        i: int,
        h: int,
        j: int,
    )
        requires
            dig_state(grid, union, sets, next, done, seen, layer, g, i),
            h == g && j >= i,
        ensures
            dig_state(grid, union, sets, next, done, seen, layer, h, j),
    {
        reveal(dig_setting);
        reveal(dig_state);
        assert forall|v: Position2d| #[trigger] next.contains(v) implies dug_before(
            grid,
            sets,
            h,
            j,
            v,
        ) by {
            assert(dug_before(grid, sets, g, i, v));
            let (k, l) = choose|k: int, l: int|
                listed(sets, k, l) && (k < g || (k == g && l < i)) && #[trigger] grid.below(
                    sets[k]@[l],
                ).contains(v);
            assert(listed(sets, k, l) && (k < h || (k == h && l < j)) && grid.below(
                sets[k]@[l],
            ).contains(v));
        }
    }

    /// The state holds on after a passage has been opened from the position
    /// at the place `(g, i)` to a cell below it, and that cell has been added
    /// to the next partition and merged with `target`: the first cell reached
    /// from the set, which may be the cell itself.
    proof fn lemma_dug<G: LayerGrid>(
        grid0: &G,
        grid: &G,
        union: &Union,
        sets: Seq<Vec<Position2d>>,
        next0: &Union,
        next1: &Union,
        next: &Union,
        done: Set<Position2d>,
        seen: Set<Position2d>,
        layer: nat,
        g: int,
        i: int,
        to: Position2d,
        target: Position2d,
    )
        requires
            dig_setting(grid0.cells(), union, sets, done, layer),
            dig_state(grid0, union, sets, next0, done, seen, layer, g, i),
            listed(sets, g, i),
            grid0.below(sets[g]@[i]).contains(to),
            !next0.contains(to),
            !seen.contains(to),
            grid0.cells().contains(to),
            to.0 == layer + 1,
            !grid0.links().contains((sets[g]@[i], to)),
            seen.contains(sets[g]@[i]),
            target == to || (next0.contains(target) && joined(
                grid0.links(),
                sets[g]@[0],
                target,
            )),
            // The passage.
            grid.valid(),
            same_shape(grid, grid0),
            forall|p: Position2d| #[trigger] grid.below(p) == grid0.below(p),
            grid.links() == with_pair(grid0.links(), sets[g]@[i], to),
            grid.links_n() == grid0.links_n() + 1,
            // The new element.
            next1.wf(),
            forall|p: Position2d| next1.contains(p) <==> next0.contains(p) || p == to,
            forall|a: Position2d, b: Position2d|
                next0.contains(a) && next0.contains(b) ==> (#[trigger] next1.same(a, b)
                    <==> next0.same(a, b)),
            next1.count() == next0.count() + 1,
            forall|other: Position2d|
                #![trigger next1.same(to, other)]
                #![trigger next1.same(other, to)]
                (next1.same(to, other) <==> other == to) && (next1.same(other, to) <==> other
                    == to),
            // The merge.
            next.wf(),
            forall|p: Position2d| next.contains(p) == next1.contains(p),
            forall|a: Position2d, b: Position2d| #[trigger]
                next.same(a, b) <==> next1.same(a, b) || (target != to && ((next1.same(a, to)
                    && next1.same(target, b)) || (next1.same(a, target) && next1.same(to, b)))),
        ensures
            dig_state(grid, union, sets, next, done, seen.insert(to), layer, g, i + 1),
            joined(grid.links(), sets[g]@[0], to),
            target != to ==> joined(grid.links(), sets[g]@[0], target),
    {
        reveal(dig_setting);
        reveal(dig_state);
        let pos = sets[g]@[i];
        let first = sets[g]@[0];
        let old_links = grid0.links();
        let links = grid.links();
        grid.lemma_graph();
        assert(symmetric(links));
        lemma_joined_step(links, pos, to);
        lemma_joined_step(links, to, pos);
        assert(listed(sets, g, 0));
        assert(union.same(first, pos) && union.same(pos, first));
        lemma_joined_grows(old_links, links, first, pos);
        lemma_joined_grows(old_links, links, pos, first);
        lemma_joined_trans(links, first, pos, to);
        lemma_joined_trans(links, to, pos, first);
        if target != to {
            lemma_joined_grows(old_links, links, first, target);
            lemma_joined_sym(links, first, target);
        }
        assert forall|a: Position2d, b: Position2d| #[trigger] union.same(a, b) implies joined(
            links,
            a,
            b,
        ) by {
            lemma_joined_grows(old_links, links, a, b);
        }
        assert forall|p: Position2d| done.contains(p) implies #[trigger] anchored(
            links,
            union,
            p,
        ) by {
            assert(anchored(old_links, union, p));
            let u = choose|u: Position2d| #[trigger]
                union.contains(u) && joined(old_links, p, u);
            lemma_joined_grows(old_links, links, p, u);
            assert(union.contains(u) && joined(links, p, u));
        }
        assert forall|a: Position2d, b: Position2d| #[trigger] next.same(a, b) implies joined(
            links,
            a,
            b,
        ) by {
            if next1.same(a, b) {
                if next0.contains(a) && next0.contains(b) {
                    assert(next0.same(a, b));
                    lemma_joined_grows(old_links, links, a, b);
                } else {
                    lemma_joined_self(links, a);
                }
            } else if next1.same(a, to) && next1.same(target, b) {
                assert(a == to);
                assert(next0.same(target, b));
                lemma_joined_grows(old_links, links, target, b);
                lemma_joined_trans(links, to, first, target);
                lemma_joined_trans(links, to, target, b);
            } else {
                assert(b == to);
                assert(next0.same(a, target));
                lemma_joined_grows(old_links, links, a, target);
                lemma_joined_trans(links, a, target, first);
                lemma_joined_trans(links, a, first, to);
            }
        }
        assert forall|k: int, j: int| listed(sets, k, j) && k < g implies anchored(
            links,
            next,
            #[trigger] sets[k]@[j],
        ) by {
            assert(anchored(old_links, next0, sets[k]@[j]));
            let u = choose|u: Position2d| #[trigger]
                next0.contains(u) && joined(old_links, sets[k]@[j], u);
            lemma_joined_grows(old_links, links, sets[k]@[j], u);
            assert(next.contains(u) && joined(links, sets[k]@[j], u));
        }
        assert forall|v: Position2d| #[trigger] next.contains(v) implies dug_before(
            grid,
            sets,
            g,
            i + 1,
            v,
        ) by {
            if v == to {
                assert(listed(sets, g, i) && grid.below(sets[g]@[i]).contains(v));
            } else {
                assert(next0.contains(v));
                assert(dug_before(grid0, sets, g, i, v));
                let (k, l) = choose|k: int, l: int|
                    listed(sets, k, l) && (k < g || (k == g && l < i)) && #[trigger] grid0.below(
                        sets[k]@[l],
                    ).contains(v);
                assert(listed(sets, k, l) && (k < g || (k == g && l < i + 1)) && grid.below(
                    sets[k]@[l],
                ).contains(v));
            }
        }
        assert(union.contains(pos));
    }

    /// The state holds at the start of the next list once a list has been
    /// gone through and a passage has been opened from it.
    proof fn lemma_set_dug<G: LayerGrid>(
        grid: &G,
        union: &Union,
        sets: Seq<Vec<Position2d>>,
        next: &Union,
        done: Set<Position2d>,
        seen: Set<Position2d>,
        layer: nat,
        g: int,
        first_target: Position2d,
    )
        requires
            dig_setting(grid.cells(), union, sets, done, layer),
            0 <= g < sets.len(),
            dig_state(grid, union, sets, next, done, seen, layer, g, sets[g]@.len() as int),
            next.contains(first_target),
            joined(grid.links(), sets[g]@[0], first_target),
        ensures
            dig_state(grid, union, sets, next, done, seen, layer, g + 1, 0),
    {
        reveal(dig_setting);
        reveal(dig_state);
        let links = grid.links();
        assert forall|k: int, j: int| listed(sets, k, j) && k < g + 1 implies anchored(
            links,
            next,
            #[trigger] sets[k]@[j],
        ) by {
            if k == g {
                assert(listed(sets, g, 0));
                assert(union.same(sets[g]@[j], sets[g]@[0]));
                lemma_joined_trans(links, sets[g]@[j], sets[g]@[0], first_target);
                assert(next.contains(first_target) && joined(links, sets[k]@[j], first_target));
            }
        }
        assert forall|v: Position2d| #[trigger] next.contains(v) implies dug_before(
            grid,
            sets,
            g + 1,
            0,
            v,
        ) by {
            assert(dug_before(grid, sets, g, sets[g]@.len() as int, v));
            let (k, l) = choose|k: int, l: int|
                listed(sets, k, l) && (k < g || (k == g && l < sets[g]@.len())) && #[trigger] grid.below(
                    sets[k]@[l],
                ).contains(v);
            assert(listed(sets, k, l) && (k < g + 1 || (k == g + 1 && l < 0)) && grid.below(
                sets[k]@[l],
            ).contains(v));
        }
    }

    /// Once every list has been gone through, the state between two steps
    /// holds of the next layer and its partition.
    proof fn lemma_layer_dug<G: LayerGrid>(
        grid: &G,
        union: &Union,
        sets: Seq<Vec<Position2d>>,
        next: &Union,
        done: Set<Position2d>,
        seen: Set<Position2d>,
        layer: nat,
    )
        requires
            dig_setting(grid.cells(), union, sets, done, layer),
            dig_state(grid, union, sets, next, done, seen, layer, sets.len() as int, 0),
            next.count() == sets.len(),
        ensures
            layer_forest(grid, next, seen, layer + 1),
    {
        reveal(dig_setting);
        reveal(dig_state);
        let links = grid.links();
        assert forall|p: Position2d| seen.contains(p) implies #[trigger] anchored(
            links,
            next,
            p,
        ) by {
            if next.contains(p) {
                lemma_joined_self(links, p);
                assert(next.contains(p) && joined(links, p, p));
            } else {
                assert(done.contains(p));
                assert(anchored(links, union, p));
                let u = choose|u: Position2d| #[trigger] union.contains(u) && joined(links, p, u);
                let (k, j) = choose|k: int, j: int|
                    listed(sets, k, j) && #[trigger] sets[k]@[j] == u;
                assert(anchored(links, next, sets[k]@[j]));
                let v = choose|v: Position2d| #[trigger] next.contains(v) && joined(links, u, v);
                lemma_joined_trans(links, p, u, v);
                assert(next.contains(v) && joined(links, p, v));
            }
        }
        assert forall|a: Position2d, b: Position2d| #[trigger]
            links.contains((a, b)) && next.contains(a) && next.contains(b) implies next.same(
            a,
            b,
        ) by {
            assert(a.0 == layer + 1 && b.0 == layer + 1);
        }
    }
}

impl LayerMazeGenerator for EllerMazeGenerator {
    fn generate_layer<G: LayerGrid>(&self, grid: &mut G, rng: &mut RandomSource) {
        let layers_n = grid.layers_n();
        let mut layer_union = Union::new();
        let ghost mut done = Set::<Position2d>::empty();
        proof {
            grid.lemma_graph();
        }
        let mut layer_ind: usize = 0;
        while layer_ind < layers_n
            invariant_except_break
                layer_forest(&*grid, &layer_union, done, layer_ind as nat),
            invariant
                layer_ind <= layers_n,
                layer_ind < layers_n || layers_n == 0,
                layers_n == 0 ==> is_blank(&*grid),
                layers_n == grid.layer_count(),
                same_shape(&*grid, &*old(grid)),
                grid.valid(),
            ensures
                layer_ind < layers_n ==> {
                    &&& layer_ind == layers_n - 1
                    &&& layer_forest(&*grid, &layer_union, done, layer_ind as nat)
                    &&& forall|p: Position2d| #[trigger]
                        grid.cells().contains(p) && p.0 == layer_ind ==> layer_union.contains(p)
                    &&& forall|p: Position2d, q: Position2d|
                        layer_union.contains(p) && layer_union.contains(q)
                            ==> #[trigger] layer_union.same(p, q)
                },
                layer_ind >= layers_n ==> layers_n == 0,
            decreases layers_n - layer_ind,
        {
            let is_last = layer_ind == layers_n - 1;
            let ghost grid0 = *grid;
            let all = Self::join_layer(grid, &mut layer_union, layer_ind, is_last, rng, Ghost(done));
            proof {
                done = all@;
                grid.lemma_layer_frame(&grid0);
            }
            if is_last {
                // There's no next layer, exit.
                break ;
            }
            let ghost grid1 = *grid;
            let (next_layer_union, seen) = Self::dig_layer(
                grid,
                layer_union,
                layer_ind,
                rng,
                Ghost(done),
            );
            // The initial connection settings in the next layer.
            layer_union = next_layer_union;
            proof {
                done = seen@;
                grid.lemma_layer_frame(&grid1);
            }
            layer_ind += 1;
        }
        proof {
            grid.lemma_graph();
            grid.lemma_layers();
            if layers_n == 0 {
                assert(grid.cells() =~= Set::<Position2d>::empty());
            } else {
                Self::lemma_last_layer(&*grid, &layer_union, done, layer_ind as nat);
            }
        }
    }
}

impl EllerMazeGenerator {
    /// Once the last layer has been dealt with and its cells are in one
    /// set, the maze is perfect.
    proof fn lemma_last_layer<G: LayerGrid>(
        grid: &G,
        union: &Union,
        done: Set<Position2d>,
        layer: nat,
    )
        requires
            layer_forest(grid, union, done, layer),
            layer + 1 == grid.layer_count(),
            forall|p: Position2d| #[trigger]
                grid.cells().contains(p) && p.0 == layer ==> union.contains(p),
            forall|p: Position2d, q: Position2d|
                union.contains(p) && union.contains(q) ==> #[trigger] union.same(p, q),
        ensures
            is_perfect(grid),
    {
        let links = grid.links();
        grid.lemma_graph();
        grid.lemma_layers();
        assert(symmetric(links));
        assert(done =~= grid.cells());
        union.lemma_count();
        if done.len() == 0 {
            done.lemma_len0_is_empty();
        } else {
            let some = done.choose();
            assert(done.contains(some));
            assert(anchored(links, union, some));
            let u = choose|u: Position2d| #[trigger] union.contains(u) && joined(links, some, u);
            union.lemma_all_same(u);
            assert forall|a: Position2d, b: Position2d|
                grid.cells().contains(a) && grid.cells().contains(b) implies #[trigger] joined(
                links,
                a,
                b,
            ) by {
                assert(anchored(links, union, a));
                assert(anchored(links, union, b));
                let ua = choose|u: Position2d| #[trigger] union.contains(u) && joined(links, a, u);
                let ub = choose|u: Position2d| #[trigger] union.contains(u) && joined(links, b, u);
                assert(union.same(ua, ub));
                lemma_joined_sym(links, b, ub);
                lemma_joined_trans(links, a, ua, ub);
                lemma_joined_trans(links, a, ub, b);
            }
        }
    }
}

} // verus!
