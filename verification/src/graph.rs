//! Walks and reachability in the graph that a grid stands for.
//!
//! A relation between positions is a set of ordered pairs. Both the
//! neighbourhood of a grid and its passages are such relations, and both hold
//! each pair in both directions.

use crate::maze::Position2d;
use vstd::prelude::*;

verus! {

/// The relation holds every pair in both directions.
pub open spec fn symmetric(rel: Set<(Position2d, Position2d)>) -> bool {
    forall|a: Position2d, b: Position2d| #[trigger] rel.contains((a, b)) ==> rel.contains((b, a))
}

/// The relation holds the pair made of the walk's positions `i` and `i + 1`.
pub open spec fn step_at(
    rel: Set<(Position2d, Position2d)>,
    walk: Seq<Position2d>,
    i: int,
) -> bool {
    rel.contains((walk[i], walk[i + 1]))
}

/// A walk is a non-empty sequence of positions in which each is related to the
/// next.
pub open spec fn is_walk(rel: Set<(Position2d, Position2d)>, walk: Seq<Position2d>) -> bool {
    &&& walk.len() > 0
    &&& forall|i: int| 0 <= i < walk.len() - 1 ==> #[trigger] step_at(rel, walk, i)
}

/// The walk leads from `a` to `b` along the relation.
pub open spec fn walk_between(
    rel: Set<(Position2d, Position2d)>,
    walk: Seq<Position2d>,
    a: Position2d,
    b: Position2d,
) -> bool {
    is_walk(rel, walk) && walk.first() == a && walk.last() == b
}

/// Some walk along the relation leads from `a` to `b`.
pub open spec fn joined(rel: Set<(Position2d, Position2d)>, a: Position2d, b: Position2d) -> bool {
    exists|walk: Seq<Position2d>| #[trigger] walk_between(rel, walk, a, b)
}

/// Every two of the cells are joined along the relation.
pub open spec fn all_joined(cells: Set<Position2d>, rel: Set<(Position2d, Position2d)>) -> bool {
    forall|a: Position2d, b: Position2d|
        cells.contains(a) && cells.contains(b) ==> #[trigger] joined(rel, a, b)
}

/// A perfect maze: every two cells are joined by passages, and there is one
/// passage fewer than there are cells (none where there is no cell).
pub open spec fn is_spanning_tree(
    cells: Set<Position2d>,
    links: Set<(Position2d, Position2d)>,
    links_n: nat,
) -> bool {
    &&& all_joined(cells, links)
    &&& if cells.len() == 0 {
        links_n == 0
    } else {
        links_n == cells.len() - 1
    }
}

/// The relation with the pair `(a, b)` added in both directions.
pub open spec fn with_pair(
    rel: Set<(Position2d, Position2d)>,
    a: Position2d,
    b: Position2d,
) -> Set<(Position2d, Position2d)> {
    rel.insert((a, b)).insert((b, a))
}

/// Every position is joined to itself.
pub proof fn lemma_joined_self(rel: Set<(Position2d, Position2d)>, a: Position2d)
    ensures
        joined(rel, a, a),
{
    let walk = seq![a];
    assert(walk_between(rel, walk, a, a));
}

/// Related positions are joined.
pub proof fn lemma_joined_step(rel: Set<(Position2d, Position2d)>, a: Position2d, b: Position2d)
    requires
        rel.contains((a, b)),
    ensures
        joined(rel, a, b),
{
    let walk = seq![a, b];
    assert forall|i: int| 0 <= i < walk.len() - 1 implies #[trigger] step_at(rel, walk, i) by {
        assert(i == 0);
    }
    assert(walk_between(rel, walk, a, b));
}

/// Walks can be put end to end.
pub proof fn lemma_joined_trans(
    rel: Set<(Position2d, Position2d)>,
    a: Position2d,
    b: Position2d,
    c: Position2d,
)
    requires
        joined(rel, a, b),
        joined(rel, b, c),
    ensures
        joined(rel, a, c),
{
    let first = choose|walk: Seq<Position2d>| #[trigger] walk_between(rel, walk, a, b);
    let second = choose|walk: Seq<Position2d>| #[trigger] walk_between(rel, walk, b, c);
    let walk = first + second.subrange(1, second.len() as int);
    assert forall|i: int| 0 <= i < walk.len() - 1 implies #[trigger] step_at(rel, walk, i) by {
        if i < first.len() - 1 {
            assert(step_at(rel, first, i));
        } else {
            let j = i - first.len() + 1;
            assert(step_at(rel, second, j));
        }
    }
    assert(walk_between(rel, walk, a, c));
}

/// Along a symmetric relation a walk can be taken backwards.
pub proof fn lemma_joined_sym(rel: Set<(Position2d, Position2d)>, a: Position2d, b: Position2d)
    requires
        symmetric(rel),
        joined(rel, a, b),
    ensures
        joined(rel, b, a),
{
    let walk = choose|walk: Seq<Position2d>| #[trigger] walk_between(rel, walk, a, b);
    let back = Seq::new(walk.len(), |i: int| walk[walk.len() - 1 - i]);
    assert forall|i: int| 0 <= i < back.len() - 1 implies #[trigger] step_at(rel, back, i) by {
        assert(step_at(rel, walk, walk.len() - 2 - i));
    }
    assert(walk_between(rel, back, b, a));
}

/// A walk along a relation is a walk along every larger relation.
pub proof fn lemma_joined_grows(
    rel: Set<(Position2d, Position2d)>,
    larger: Set<(Position2d, Position2d)>,
    a: Position2d,
    b: Position2d,
)
    requires
        rel.subset_of(larger),
        joined(rel, a, b),
    ensures
        joined(larger, a, b),
{
    let walk = choose|walk: Seq<Position2d>| #[trigger] walk_between(rel, walk, a, b);
    assert forall|i: int| 0 <= i < walk.len() - 1 implies #[trigger] step_at(larger, walk, i) by {
        assert(step_at(rel, walk, i));
    }
    assert(walk_between(larger, walk, a, b));
}

/// A position joined to `a` is joined to `b` once the pair `(a, b)` has been
/// added to the relation.
pub proof fn lemma_joined_extend(
    rel: Set<(Position2d, Position2d)>,
    from: Position2d,
    a: Position2d,
    b: Position2d,
)
    requires
        joined(rel, from, a),
    ensures
        joined(with_pair(rel, a, b), from, b),
{
    let larger = with_pair(rel, a, b);
    lemma_joined_grows(rel, larger, from, a);
    lemma_joined_step(larger, a, b);
    lemma_joined_trans(larger, from, a, b);
}

/// A walk that starts inside a set and is outside it at index `k` crosses its
/// border at some step before `k`.
proof fn lemma_walk_leaves(
    rel: Set<(Position2d, Position2d)>,
    inside: Set<Position2d>,
    walk: Seq<Position2d>,
    k: int,
) -> (i: int)
    requires
        is_walk(rel, walk),
        0 <= k < walk.len(),
        inside.contains(walk[0]),
        !inside.contains(walk[k]),
    ensures
        0 <= i < k,
        inside.contains(walk[i]),
        !inside.contains(walk[i + 1]),
        rel.contains((walk[i], walk[i + 1])),
    decreases k,
{
    if inside.contains(walk[k - 1]) {
        assert(step_at(rel, walk, k - 1));
        k - 1
    } else {
        lemma_walk_leaves(rel, inside, walk, k - 1)
    }
}

/// Where a position inside a set is joined to one outside it, some related
/// pair has its first position inside and its second outside.
pub proof fn lemma_crossing(
    rel: Set<(Position2d, Position2d)>,
    inside: Set<Position2d>,
    a: Position2d,
    b: Position2d,
) -> (pair: (Position2d, Position2d))
    requires
        joined(rel, a, b),
        inside.contains(a),
        !inside.contains(b),
    ensures
        rel.contains(pair),
        inside.contains(pair.0),
        !inside.contains(pair.1),
{
    let walk = choose|walk: Seq<Position2d>| #[trigger] walk_between(rel, walk, a, b);
    let i = lemma_walk_leaves(rel, inside, walk, walk.len() - 1);
    (walk[i], walk[i + 1])
}

/// Where one position is joined to every cell along a symmetric relation,
/// every two cells are joined.
pub proof fn lemma_all_joined_from(
    cells: Set<Position2d>,
    rel: Set<(Position2d, Position2d)>,
    root: Position2d,
)
    requires
        symmetric(rel),
        forall|p: Position2d| cells.contains(p) ==> #[trigger] joined(rel, root, p),
    ensures
        all_joined(cells, rel),
{
    assert forall|a: Position2d, b: Position2d|
        cells.contains(a) && cells.contains(b) implies #[trigger] joined(rel, a, b) by {
        lemma_joined_sym(rel, root, a);
        lemma_joined_trans(rel, a, root, b);
    }
}

/// A finite symmetric relation grows by two ordered pairs where a pair
/// of different positions is added that it did not hold, and stays as it is
/// where it held the pair.
pub proof fn lemma_with_pair_len(rel: Set<(Position2d, Position2d)>, a: Position2d, b: Position2d)
    requires
        rel.finite(),
        symmetric(rel),
        a != b,
    ensures
        with_pair(rel, a, b).finite(),
        with_pair(rel, a, b).len() == rel.len() + if rel.contains((a, b)) {
            0nat
        } else {
            2nat
        },
        rel.contains((a, b)) ==> with_pair(rel, a, b) == rel,
{
    if rel.contains((a, b)) {
        assert(rel.contains((b, a)));
        assert(with_pair(rel, a, b) =~= rel);
    } else {
        assert(!rel.contains((b, a)));
    }
}

/// Every position of the region but `root` is related to a position of
/// the region with a lower rank.
pub open spec fn flows_within(
    rel: Set<(Position2d, Position2d)>,
    region: Set<Position2d>,
    root: Position2d,
    rank: spec_fn(Position2d) -> nat,
) -> bool {
    forall|p: Position2d|
        #![trigger region.contains(p)]
        region.contains(p) && p != root ==> exists|q: Position2d| #[trigger]
            rel.contains((p, q)) && region.contains(q) && rank(q) < rank(p)
}

/// Where every position of a region but `root` is related to one with a
/// lower rank, every position of the region is joined to `root`.
pub proof fn lemma_flow_within(
    rel: Set<(Position2d, Position2d)>,
    region: Set<Position2d>,
    root: Position2d,
    rank: spec_fn(Position2d) -> nat,
    p: Position2d,
)
    requires
        flows_within(rel, region, root, rank),
        region.contains(p),
    ensures
        joined(rel, p, root),
    decreases rank(p),
{
    if p == root {
        lemma_joined_self(rel, p);
    } else {
        let q = choose|q: Position2d| #[trigger]
            rel.contains((p, q)) && region.contains(q) && rank(q) < rank(p);
        lemma_flow_within(rel, region, root, rank, q);
        lemma_joined_step(rel, p, q);
        lemma_joined_trans(rel, p, q, root);
    }
}

} // verus!
