//! A partition of positions into disjoint sets that can only be merged.

use crate::maze::Position2d;
use crate::pos_set::PosSet;
use vstd::prelude::*;

verus! {

/// Every entry points at its own place or at a later one.
pub open spec fn ids_ok(ids: Seq<usize>) -> bool {
    forall|i: int| 0 <= i < ids.len() ==> i <= #[trigger] ids[i] < ids.len()
}

/// Where the chain of pointers that starts at `i` ends.
pub open spec fn root_of(ids: Seq<usize>, i: int) -> int
    decreases ids.len() - i,
{
    if 0 <= i < ids.len() && i < ids[i] < ids.len() {
        root_of(ids, ids[i] as int)
    } else {
        i
    }
}

/// How many of the first `k` entries point at their own place.
pub open spec fn count_roots(ids: Seq<usize>, k: nat) -> nat
    decreases k,
{
    if k == 0 {
        0
    } else {
        count_roots(ids, (k - 1) as nat) + if ids[k - 1] == k - 1 {
            1nat
        } else {
            0nat
        }
    }
}

/// A chain ends at an entry that points at itself, at or after its start.
pub proof fn lemma_root(ids: Seq<usize>, i: int)
    requires
        ids_ok(ids),
        0 <= i < ids.len(),
    ensures
        i <= root_of(ids, i) < ids.len(),
        ids[root_of(ids, i)] == root_of(ids, i),
    decreases ids.len() - i,
{
    if i < ids[i] {
        lemma_root(ids, ids[i] as int);
    }
}

/// Pointing an entry straight at the end of its chain moves no chain's end.
proof fn lemma_compress(ids: Seq<usize>, i: int, root: usize, j: int)
    requires
        ids_ok(ids),
        0 <= i < ids.len(),
        0 <= j < ids.len(),
        root == root_of(ids, i),
    ensures
        root_of(ids.update(i, root), j) == root_of(ids, j),
    decreases ids.len() - j,
{
    let new = ids.update(i, root);
    lemma_root(ids, i);
    if j == i {
        if i < ids[i] {
            lemma_root(ids, ids[i] as int);
            assert(new[root as int] == root);
            assert(root_of(new, root as int) == root);
        }
    } else if j < ids[j] {
        lemma_compress(ids, i, root, ids[j] as int);
    }
}

/// Pointing the end of one chain at the end of another, later one moves the
/// ends of the chains that ended at the first, and no other.
proof fn lemma_link(ids: Seq<usize>, from: usize, to: usize, j: int)
    requires
        ids_ok(ids),
        0 <= from < to < ids.len(),
        ids[from as int] == from,
        ids[to as int] == to,
        0 <= j < ids.len(),
    ensures
        root_of(ids.update(from as int, to), j) == if root_of(ids, j) == from {
            to as int
        } else {
            root_of(ids, j)
        },
    decreases ids.len() - j,
{
    let new = ids.update(from as int, to);
    if j == from {
        assert(new[to as int] == to);
        assert(root_of(new, to as int) == to);
    } else if j < ids[j] {
        lemma_link(ids, from, to, ids[j] as int);
    }
}

/// A new last entry that points at itself ends no older chain.
proof fn lemma_push(ids: Seq<usize>, last: usize, j: int)
    requires
        ids_ok(ids),
        0 <= j < ids.len(),
    ensures
        root_of(ids.push(last), j) == root_of(ids, j),
    decreases ids.len() - j,
{
    if j < ids[j] {
        lemma_push(ids, last, ids[j] as int);
    }
}

/// Sequences whose entries point at themselves at the same places have as
/// many such entries.
proof fn lemma_count_same(ids: Seq<usize>, new: Seq<usize>, k: nat)
    requires
        k <= ids.len(),
        k <= new.len(),
        forall|i: int| 0 <= i < k ==> (#[trigger] new[i] == i) == (ids[i] == i),
    ensures
        count_roots(new, k) == count_roots(ids, k),
    decreases k,
{
    if k > 0 {
        lemma_count_same(ids, new, (k - 1) as nat);
    }
}

/// Pointing one self-pointing entry elsewhere leaves one such entry fewer.
proof fn lemma_count_unroot(ids: Seq<usize>, from: usize, to: usize, k: nat)
    requires
        0 <= from < ids.len(),
        0 <= to < ids.len(),
        from != to,
        ids[from as int] == from,
        k <= ids.len(),
    ensures
        count_roots(ids.update(from as int, to), k) + (if from < k {
            1nat
        } else {
            0nat
        }) == count_roots(ids, k),
    decreases k,
{
    if k > 0 {
        lemma_count_unroot(ids, from, to, (k - 1) as nat);
    }
}

/// Where two different entries point at themselves, the count is at least 2;
/// where one does, at least 1.
proof fn lemma_count_two(ids: Seq<usize>, a: int, b: int, k: nat)
    requires
        0 <= a <= b < k <= ids.len(),
        ids[a] == a,
        ids[b] == b,
    ensures
        count_roots(ids, k) >= if a == b {
            1nat
        } else {
            2nat
        },
    decreases k,
{
    if b < k - 1 {
        lemma_count_two(ids, a, b, (k - 1) as nat);
    } else if a < b {
        lemma_count_two(ids, a, a, (k - 1) as nat);
    }
}

/// Where at most the entry `r` points at itself, the count is 1 from `r` on
/// and 0 before.
proof fn lemma_count_one(ids: Seq<usize>, r: int, k: nat)
    requires
        k <= ids.len(),
        forall|i: int| 0 <= i < k && #[trigger] ids[i] == i ==> i == r,
        0 <= r < ids.len() ==> ids[r] == r,
    ensures
        count_roots(ids, k) == if 0 <= r < k {
            1nat
        } else {
            0nat
        },
    decreases k,
{
    if k > 0 {
        lemma_count_one(ids, r, (k - 1) as nat);
    }
}

/// A helper to find which set an element belongs to after arbitrary merges.
/// Every element starts in a set of its own.
pub struct Union {
    eles: PosSet,
    set_ids: Vec<usize>,
    sets_n: usize,
    merges: Ghost<nat>,
}

impl Union {
    /// The structure is consistent: each element has an entry that leads, by
    /// way of later entries, to the entry that stands for its set.
    pub closed spec fn wf(&self) -> bool {
        &&& self.eles.wf()
        &&& self.set_ids@.len() == self.eles.order().len()
        &&& ids_ok(self.set_ids@)
        &&& self.sets_n == count_roots(self.set_ids@, self.set_ids@.len())
        &&& self.sets_n + self.merges@ == self.set_ids@.len()
    }

    /// The partition: each element with the entry that stands for its set.
    pub closed spec fn sets(&self) -> Map<Position2d, int> {
        Map::new(
            |ele: Position2d| self.eles@.contains(ele),
            |ele: Position2d| root_of(self.set_ids@, self.slot(ele)),
        )
    }

    /// Whether `ele` has been added.
    pub open spec fn contains(&self, ele: Position2d) -> bool {
        self.sets().dom().contains(ele)
    }

    /// The elements, in the order in which they were added.
    pub closed spec fn elements(&self) -> Seq<Position2d> {
        self.eles.order()
    }

    /// The place of an element among the elements.
    pub closed spec fn slot(&self, ele: Position2d) -> int {
        choose|i: int| 0 <= i < self.eles.order().len() && self.eles.order()[i] == ele
    }

    /// The entry that stands for the set of `ele`.
    pub open spec fn set_of(&self, ele: Position2d) -> int {
        self.sets()[ele]
    }

    /// Whether `a` and `b` have both been added and are in one set.
    pub open spec fn same(&self, a: Position2d, b: Position2d) -> bool {
        self.contains(a) && self.contains(b) && self.set_of(a) == self.set_of(b)
    }

    /// The number of sets.
    pub closed spec fn count(&self) -> nat {
        self.sets_n as nat
    }

    /// The number of merges that joined two sets.
    pub closed spec fn merged(&self) -> nat {
        self.merges@
    }

    /// There are as many sets as elements were added, less the merges that
    /// joined two sets.
    pub proof fn lemma_count(&self)
        requires
            self.wf(),
        ensures
            self.count() == self.elements().len() - self.merged(),
            self.elements().no_duplicates(),
            forall|p: Position2d| self.contains(p) <==> self.elements().contains(p),
            forall|p: Position2d|
                self.contains(p) ==> 0 <= #[trigger] self.slot(p) < self.elements().len()
                    && self.elements()[self.slot(p)] == p,
    {
        self.eles.lemma_len();
    }

    /// The entry that stands for a set is the place of one of its elements:
    /// of the one that was added last.
    pub proof fn lemma_set_of(&self, p: Position2d)
        requires
            self.wf(),
            self.contains(p),
        ensures
            self.slot(p) <= self.set_of(p) < self.elements().len(),
            self.same(p, self.elements()[self.set_of(p)]),
            self.slot(self.elements()[self.set_of(p)]) == self.set_of(p),
            forall|q: Position2d| #[trigger] self.same(p, q) ==> self.slot(q) <= self.set_of(p),
    {
        let ids = self.set_ids@;
        self.eles.lemma_len();
        lemma_root(ids, self.slot(p));
        let r = self.set_of(p);
        let last = self.elements()[r];
        assert(self.eles@.contains(last));
        assert(self.slot(last) == r);
        assert forall|q: Position2d| #[trigger] self.same(p, q) implies self.slot(q) <= r by {
            lemma_root(ids, self.slot(q));
        }
    }

    /// Where there is one set, it holds every element.
    pub proof fn lemma_one_set(&self, a: Position2d, b: Position2d)
        requires
            self.wf(),
            self.count() <= 1,
            self.contains(a),
            self.contains(b),
        ensures
            self.same(a, b),
    {
        let ids = self.set_ids@;
        lemma_root(ids, self.slot(a));
        lemma_root(ids, self.slot(b));
        let ra = self.set_of(a);
        let rb = self.set_of(b);
        if ra < rb {
            lemma_count_two(ids, ra, rb, ids.len());
        } else if rb < ra {
            lemma_count_two(ids, rb, ra, ids.len());
        }
    }

    /// Where one element is in a set with every other, there is one set.
    pub proof fn lemma_all_same(&self, a: Position2d)
        requires
            self.wf(),
            self.contains(a),
            forall|b: Position2d| self.contains(b) ==> #[trigger] self.same(a, b),
        ensures
            self.count() == 1,
    {
        let ids = self.set_ids@;
        let order = self.eles.order();
        self.eles.lemma_len();
        lemma_root(ids, self.slot(a));
        let r = self.set_of(a);
        assert forall|i: int| 0 <= i < ids.len() && #[trigger] ids[i] == i implies i == r by {
            let b = order[i];
            assert(self.eles@.contains(b));
            assert(self.same(a, b));
            assert(self.slot(b) == i);
        }
        lemma_count_one(ids, r, ids.len());
    }

    /// Where there is no set, there is no element.
    pub proof fn lemma_no_set(&self)
        requires
            self.wf(),
            self.count() == 0,
        ensures
            self.elements().len() == 0,
    {
        let ids = self.set_ids@;
        if ids.len() > 0 {
            lemma_root(ids, 0);
            lemma_count_two(ids, root_of(ids, 0), root_of(ids, 0), ids.len());
        }
    }

    /// No elements, no sets.
    pub fn new() -> (union: Self)
        ensures
            union.wf(),
            union.elements() == Seq::<Position2d>::empty(),
            union.count() == 0,
            union.merged() == 0,
            forall|p: Position2d| !union.contains(p),
    {
        Union { eles: PosSet::new(), set_ids: Vec::new(), sets_n: 0, merges: Ghost(0) }
    }

    /// A set of its own for every member of `positions`.
    pub fn from_set(positions: &PosSet) -> (union: Self)
        requires
            positions.wf(),
        ensures
            union.wf(),
            union.elements() == positions.order(),
            union.count() == positions@.len(),
            union.merged() == 0,
            forall|p: Position2d| union.contains(p) <==> positions@.contains(p),
            forall|a: Position2d, b: Position2d| #[trigger]
                union.same(a, b) <==> a == b && positions@.contains(a),
            forall|p: Position2d|
                union.contains(p) ==> 0 <= #[trigger] union.set_of(p) < union.elements().len()
                    && union.elements()[union.set_of(p)] == p,
    {
        let mut union = Union::new();
        let total = positions.len();
        let mut i: usize = 0;
        while i < total
            invariant
                positions.wf(),
                total == positions.order().len(),
                i <= total,
                union.wf(),
                union.elements() == positions.order().subrange(0, i as int),
                union.count() == i,
                union.merged() == 0,
                forall|a: Position2d, b: Position2d| #[trigger]
                    union.same(a, b) <==> a == b && union.contains(a),
                forall|p: Position2d|
                    union.contains(p) ==> 0 <= #[trigger] union.set_of(p) < union.elements().len()
                        && union.elements()[union.set_of(p)] == p,
            decreases total - i,
        {
            let pos = positions.get(i);
            proof {
                positions.lemma_len();
                union.lemma_count();
                if union.contains(pos) {
                    let j = choose|j: int| 0 <= j < i && union.elements()[j] == pos;
                    assert(positions.order()[j] == positions.order()[i as int]);
                }
            }
            union.add(pos);
            proof {
                assert(union.elements() =~= positions.order().subrange(0, i + 1));
            }
            i += 1;
        }
        proof {
            positions.lemma_len();
            union.lemma_count();
            assert(union.elements() =~= positions.order());
        }
        union
    }

    /// The number of sets.
    pub fn sets_n(&self) -> (n: usize)
        ensures
            n == self.count(),
    {
        self.sets_n
    }

    /// Adds `ele` in a set of its own, unless it has been added before.
    pub fn add(&mut self, ele: Position2d)
        requires
            old(self).wf(),
        ensures
            final(self).wf(),
            final(self).merged() == old(self).merged(),
            forall|p: Position2d| final(self).contains(p) <==> old(self).contains(p) || p == ele,
            forall|a: Position2d, b: Position2d|
                old(self).contains(a) && old(self).contains(b) ==> (#[trigger] final(self).same(a, b)
                    <==> old(self).same(a, b)),
            forall|p: Position2d|
                old(self).contains(p) ==> #[trigger] final(self).set_of(p) == old(self).set_of(p),
            old(self).contains(ele) ==> final(self).count() == old(self).count()
                && final(self).elements() == old(self).elements(),
            !old(self).contains(ele) ==> {
                &&& final(self).count() == old(self).count() + 1
                &&& final(self).elements() == old(self).elements().push(ele)
                &&& final(self).set_of(ele) == old(self).elements().len()
                &&& forall|other: Position2d|
                    #![trigger final(self).same(ele, other)]
                    #![trigger final(self).same(other, ele)]
                    (final(self).same(ele, other) <==> other == ele) && (final(self).same(
                        other,
                        ele,
                    ) <==> other == ele)
            },
    {
        if self.eles.contains(&ele) {
            return ;
        }
        let ghost before = *self;
        let ghost ids = self.set_ids@;
        let ghost order = self.eles.order();
        proof {
            self.eles.lemma_len();
        }
        let ind = self.set_ids.len();
        self.eles.insert(ele);
        self.set_ids.push(ind);
        let total = self.set_ids.len();
        self.sets_n += 1;
        proof {
            self.eles.lemma_len();
            let new = self.set_ids@;
            assert(new == ids.push(ind));
            lemma_count_same(ids, new, ids.len());
            assert forall|p: Position2d| before.contains(p) implies self.slot(p) == before.slot(
                p,
            ) by {
                let i = before.slot(p);
                assert(self.eles.order()[i] == p);
            }
            assert(self.eles.order()[ind as int] == ele);
            assert(self.slot(ele) == ind);
            assert forall|p: Position2d| before.contains(p) implies self.set_of(p)
                == before.set_of(p) && self.set_of(p) < ind by {
                lemma_push(ids, ind, before.slot(p));
                lemma_root(ids, before.slot(p));
            }
            assert(root_of(new, ind as int) == ind);
            assert(self.count() == before.count() + 1);
            assert(self.elements() == before.elements().push(ele));
            assert forall|other: Position2d|
                #![trigger self.same(ele, other)]
                #![trigger self.same(other, ele)]
                (self.same(ele, other) <==> other == ele) && (self.same(other, ele) <==> other
                    == ele) by {
                if other != ele && self.contains(other) {
                    assert(before.contains(other));
                    assert(self.set_of(other) < ind);
                }
            }
        }
    }

    /// Joins the sets of `ele0` and `ele1`, and says whether they were two:
    /// not where the elements already were in one set, nor where one of them
    /// has not been added. Of the two entries that stood for the sets, the
    /// later one stands for the joined set.
    pub fn merge(&mut self, ele0: &Position2d, ele1: &Position2d) -> (merged: bool)
        requires
            old(self).wf(),
        ensures
            final(self).wf(),
            final(self).elements() == old(self).elements(),
            forall|p: Position2d| final(self).contains(p) == old(self).contains(p),
            merged == (old(self).contains(*ele0) && old(self).contains(*ele1) && !old(self).same(
                *ele0,
                *ele1,
            )),
            merged ==> final(self).count() == old(self).count() - 1 && final(self).merged()
                == old(self).merged() + 1,
            !merged ==> final(self).count() == old(self).count() && final(self).merged()
                == old(self).merged(),
            forall|p: Position2d|
                old(self).contains(p) ==> #[trigger] final(self).set_of(p) == if merged && (old(
                    self,
                ).same(p, *ele0) || old(self).same(p, *ele1)) {
                    if old(self).set_of(*ele0) < old(self).set_of(*ele1) {
                        old(self).set_of(*ele1)
                    } else {
                        old(self).set_of(*ele0)
                    }
                } else {
                    old(self).set_of(p)
                },
            forall|a: Position2d, b: Position2d| #[trigger]
                final(self).same(a, b) <==> old(self).same(a, b) || (merged && ((old(self).same(
                    a,
                    *ele0,
                ) && old(self).same(*ele1, b)) || (old(self).same(a, *ele1) && old(self).same(
                    *ele0,
                    b,
                )))),
    {
        let ghost before = *self;
        let Some(set_id0) = self.ele_set_id(ele0) else {
            return false;
        };
        let Some(set_id1) = self.ele_set_id(ele1) else {
            return false;
        };
        if set_id0 == set_id1 {
            return false;
        }
        let from_id = if set_id0 < set_id1 {
            set_id0
        } else {
            set_id1
        };
        let to_id = if set_id0 < set_id1 {
            set_id1
        } else {
            set_id0
        };
        let ghost ids = self.set_ids@;
        proof {
            lemma_root(ids, self.slot(*ele0));
            lemma_root(ids, self.slot(*ele1));
            lemma_count_two(ids, from_id as int, to_id as int, ids.len());
        }
        self.set_ids.set(from_id, to_id);
        self.sets_n -= 1;
        proof {
            self.merges@ = self.merges@ + 1;
            let new = self.set_ids@;
            lemma_count_unroot(ids, from_id, to_id, ids.len());
            assert forall|p: Position2d| self.contains(p) implies self.set_of(p) == if before.set_of(
                p,
            ) == from_id {
                to_id as int
            } else {
                before.set_of(p)
            } by {
                lemma_link(ids, from_id, to_id, before.slot(p));
            }
        }
        true
    }

    /// The sets, each as the list of its elements in the order in which they
    /// were added; the sets themselves in the order of the entries that stand
    /// for them. Every element is in one list, once, and two elements are in
    /// one list exactly if they are in one set.
    pub fn into_sets(self) -> (sets: Vec<Vec<Position2d>>)
        requires
            self.wf(),
        ensures
            sets@.len() == self.count(),
            forall|g: int| 0 <= g < sets@.len() ==> (#[trigger] sets@[g])@.len() > 0,
            forall|g: int, i: int|
                0 <= g < sets@.len() && 0 <= i < sets@[g]@.len() ==> self.contains(
                    #[trigger] sets@[g]@[i],
                ),
            forall|p: Position2d|
                self.contains(p) ==> exists|g: int, i: int|
                    0 <= g < sets@.len() && 0 <= i < sets@[g]@.len() && #[trigger] sets@[g]@[i]
                        == p,
            forall|g: int, i: int, h: int, j: int|
                0 <= g < sets@.len() && 0 <= i < sets@[g]@.len() && 0 <= h < sets@.len() && 0 <= j
                    < sets@[h]@.len() ==> (self.same(
                    #[trigger] sets@[g]@[i],
                    #[trigger] sets@[h]@[j],
                ) <==> g == h),
            forall|g: int, i: int, h: int, j: int|
                0 <= g < sets@.len() && 0 <= i < sets@[g]@.len() && 0 <= h < sets@.len() && 0 <= j
                    < sets@[h]@.len() && #[trigger] sets@[g]@[i] == #[trigger] sets@[h]@[j] ==> g
                    == h && i == j,
            forall|g: int, i: int, j: int|
                0 <= g < sets@.len() && 0 <= i < j < sets@[g]@.len() ==> self.slot(
                    #[trigger] sets@[g]@[i],
                ) < self.slot(#[trigger] sets@[g]@[j]),
            forall|g: int, h: int|
                0 <= g < h < sets@.len() ==> self.slot((#[trigger] sets@[g])@.last()) < self.slot(
                    (#[trigger] sets@[h])@.last(),
                ),
    {
        let total = self.set_ids.len();
        let ghost ids = self.set_ids@;
        let ghost order = self.eles.order();
        proof {
            self.eles.lemma_len();
        }
        // The place of each set among the result, noted at the entry that
        // stands for the set.
        let mut set_inds: Vec<usize> = Vec::new();
        let mut sets: Vec<Vec<Position2d>> = Vec::new();
        let mut e: usize = 0;
        while e < total
            invariant
                e <= total,
                total == ids.len(),
                ids == self.set_ids@,
                set_inds@.len() == e,
                sets@.len() == count_roots(ids, e as nat),
                sets@.len() <= e,
                forall|r: int| 0 <= r < e ==> #[trigger] set_inds@[r] == count_roots(ids, r as nat),
                forall|k: int| 0 <= k < sets@.len() ==> (#[trigger] sets@[k])@.len() == 0,
            decreases total - e,
        {
            set_inds.push(sets.len());
            if self.set_ids[e] == e {
                sets.push(Vec::new());
            }
            e += 1;
        }
        let mut i: usize = 0;
        while i < total
            invariant
                i <= total,
                total == ids.len(),
                total == order.len(),
                order == self.eles.order(),
                ids == self.set_ids@,
                self.wf(),
                set_inds@.len() == total,
                sets@.len() == count_roots(ids, total as nat),
                forall|r: int|
                    0 <= r < total ==> #[trigger] set_inds@[r] == count_roots(ids, r as nat),
                forall|k: int|
                    0 <= k < sets@.len() ==> (#[trigger] sets@[k])@ == members(
                        order,
                        ids,
                        k as nat,
                        i as nat,
                    ),
            decreases total - i,
        {
            let root = Self::follow(&self.set_ids, i);
            proof {
                lemma_root(ids, i as int);
                lemma_set_ind(ids, root as int, total as nat);
            }
            let set_ind = set_inds[root];
            let ele = self.eles.get(i);
            let ghost sets_before = sets@;
            let mut set: Vec<Position2d> = Vec::new();
            std::mem::swap(&mut set, &mut sets[set_ind]);
            set.push(ele);
            std::mem::swap(&mut set, &mut sets[set_ind]);
            proof {
                assert(sets@[set_ind as int]@ == sets_before[set_ind as int]@.push(ele));
                assert forall|k: int| 0 <= k < sets@.len() implies (#[trigger] sets@[k])@
                    == members(order, ids, k as nat, (i + 1) as nat) by {
                    if k != set_ind {
                        assert(sets@[k] == sets_before[k]);
                    }
                }
            }
            i += 1;
        }
        proof {
            let lists = sets@.map_values(|set: Vec<Position2d>| set@);
            assert forall|k: int| 0 <= k < lists.len() implies #[trigger] lists[k] == members(
                order,
                ids,
                k as nat,
                total as nat,
            ) by {
                assert(lists[k] == sets@[k]@);
            }
            self.lemma_sets(lists);
            assert forall|g: int| 0 <= g < sets@.len() implies (#[trigger] sets@[g])@ == lists[g] by {}
            assert forall|g: int| 0 <= g < sets@.len() implies (#[trigger] sets@[g])@.len() > 0 by {
                assert(lists[g].len() > 0);
            }
            assert forall|g: int, i: int|
                0 <= g < sets@.len() && 0 <= i < sets@[g]@.len() implies self.contains(
                #[trigger] sets@[g]@[i],
            ) by {
                assert(self.contains(lists[g][i]));
            }
            assert forall|p: Position2d| self.contains(p) implies exists|g: int, i: int|
                0 <= g < sets@.len() && 0 <= i < sets@[g]@.len() && #[trigger] sets@[g]@[i]
                    == p by {
                let (g, i) = choose|g: int, i: int|
                    0 <= g < lists.len() && 0 <= i < lists[g].len() && #[trigger] lists[g][i] == p;
                assert(sets@[g]@[i] == p);
            }
            assert forall|g: int, i: int, h: int, j: int|
                0 <= g < sets@.len() && 0 <= i < sets@[g]@.len() && 0 <= h < sets@.len() && 0 <= j
                    < sets@[h]@.len() implies (self.same(
                #[trigger] sets@[g]@[i],
                #[trigger] sets@[h]@[j],
            ) <==> g == h) && (sets@[g]@[i] == sets@[h]@[j] ==> g == h && i == j) by {
                assert(self.same(lists[g][i], lists[h][j]) <==> g == h);
                assert(lists[g][i] == lists[h][j] ==> g == h && i == j);
            }
            assert forall|g: int, i: int, j: int|
                0 <= g < sets@.len() && 0 <= i < j < sets@[g]@.len() implies self.slot(
                #[trigger] sets@[g]@[i],
            ) < self.slot(#[trigger] sets@[g]@[j]) by {
                assert(self.slot(lists[g][i]) < self.slot(lists[g][j]));
            }
            assert forall|g: int, h: int| 0 <= g < h < sets@.len() implies self.slot(
                (#[trigger] sets@[g])@.last(),
            ) < self.slot((#[trigger] sets@[h])@.last()) by {
                assert(lists[g].len() > 0 && lists[h].len() > 0);
                assert(self.slot(lists[g].last()) < self.slot(lists[h].last()));
            }
        }
        sets
    }

    /// Whether `ele0` and `ele1` are in one set; nothing where one of them
    /// has not been added. The partition stays as it is.
    pub fn is_union(&mut self, ele0: &Position2d, ele1: &Position2d) -> (united: Option<bool>)
        requires
            old(self).wf(),
        ensures
            final(self).wf(),
            final(self).unchanged(old(self)),
            forall|p: Position2d| #[trigger] final(self).contains(p) == old(self).contains(p),
            forall|a: Position2d, b: Position2d| #[trigger]
                final(self).same(a, b) == old(self).same(a, b),
            united == if old(self).contains(*ele0) && old(self).contains(*ele1) {
                Some(old(self).same(*ele0, *ele1))
            } else {
                None
            },
    {
        match self.ele_set_id(ele0) {
            Some(set_ind0) => match self.ele_set_id(ele1) {
                Some(set_ind1) => Some(set_ind0 == set_ind1),
                None => None,
            },
            None => None,
        }
    }

    /// The entry that stands for the set of `ele`, if `ele` has been added.
    /// The partition stays as it is.
    pub fn ele_set_id(&mut self, ele: &Position2d) -> (id: Option<usize>)
        requires
            old(self).wf(),
        ensures
            final(self).wf(),
            final(self).unchanged(old(self)),
            forall|p: Position2d| #[trigger] final(self).contains(p) == old(self).contains(p),
            forall|a: Position2d, b: Position2d| #[trigger]
                final(self).same(a, b) == old(self).same(a, b),
            id is Some <==> old(self).contains(*ele),
            id is Some ==> id->0 == old(self).set_of(*ele),
    {
        match self.eles.index_of(ele) {
            Some(ind) => {
                proof {
                    self.eles.lemma_len();
                }
                let ghost before = *self;
                let id = self.set_id(ind);
                proof {
                    assert(self.sets() =~= before.sets());
                }
                Some(id)
            },
            None => None,
        }
    }

    /// Follows the chain of entries from `ind` to its end, and points every
    /// entry on the way straight at that end.
    fn set_id(&mut self, ind: usize) -> (root: usize)
        requires
            old(self).wf(),
            ind < old(self).set_ids@.len(),
        ensures
            final(self).wf(),
            final(self).eles == old(self).eles,
            final(self).sets_n == old(self).sets_n,
            final(self).merges == old(self).merges,
            final(self).set_ids@.len() == old(self).set_ids@.len(),
            root == root_of(old(self).set_ids@, ind as int),
            forall|j: int|
                0 <= j < final(self).set_ids@.len() ==> root_of(final(self).set_ids@, j)
                    == #[trigger] root_of(old(self).set_ids@, j),
            forall|j: int|
                0 <= j < final(self).set_ids@.len() ==> (#[trigger] final(self).set_ids@[j] == j)
                    == (old(self).set_ids@[j] == j),
        decreases old(self).set_ids@.len() - ind,
    {
        let parent_ind = self.set_ids[ind];
        if parent_ind == ind {
            return ind;
        }
        let ghost ids0 = self.set_ids@;
        let root_ind = self.set_id(parent_ind);
        let ghost ids1 = self.set_ids@;
        proof {
            lemma_root(ids0, ind as int);
            assert(root_of(ids0, ind as int) == root_of(ids0, parent_ind as int));
            assert(root_of(ids1, ind as int) == root_of(ids0, ind as int));
        }
        self.set_ids.set(ind, root_ind);
        proof {
            let new = self.set_ids@;
            assert forall|j: int| 0 <= j < new.len() implies root_of(new, j) == #[trigger] root_of(
                ids0,
                j,
            ) by {
                lemma_compress(ids1, ind as int, root_ind, j);
                assert(root_of(ids1, j) == root_of(ids0, j));
            }
            assert(ids1[ind as int] != ind);
            lemma_count_same(ids1, new, new.len());
        }
        root_ind
    }

    /// Elements, partition and counts are those of `other`.
    pub open spec fn unchanged(&self, other: &Self) -> bool {
        &&& self.elements() == other.elements()
        &&& self.sets() == other.sets()
        &&& self.count() == other.count()
        &&& self.merged() == other.merged()
    }
}

/// The number that a set has among the sets: how many entries before the one
/// that stands for it stand for a set.
pub open spec fn group_at(ids: Seq<usize>, slot: int) -> nat {
    count_roots(ids, root_of(ids, slot) as nat)
}

/// The elements among the first `n` whose set has the number `k`, in their
/// order.
pub open spec fn members(order: Seq<Position2d>, ids: Seq<usize>, k: nat, n: nat) -> Seq<
    Position2d,
>
    decreases n,
{
    if n == 0 {
        Seq::empty()
    } else {
        let rest = members(order, ids, k, (n - 1) as nat);
        if group_at(ids, n - 1) == k {
            rest.push(order[n - 1])
        } else {
            rest
        }
    }
}

/// A listed member is one of the first `n` elements, of a set with the
/// list's number.
proof fn lemma_member_slot(order: Seq<Position2d>, ids: Seq<usize>, k: nat, n: nat, i: int) -> (s:
    int)
    requires
        0 <= i < members(order, ids, k, n).len(),
    ensures
        0 <= s < n,
        order[s] == members(order, ids, k, n)[i],
        group_at(ids, s) == k,
    decreases n,
{
    let rest = members(order, ids, k, (n - 1) as nat);
    if group_at(ids, n - 1) == k && i == rest.len() {
        n - 1
    } else {
        lemma_member_slot(order, ids, k, (n - 1) as nat, i)
    }
}

/// Each of the first `n` elements is listed under the number of its set.
proof fn lemma_slot_member(order: Seq<Position2d>, ids: Seq<usize>, n: nat, s: int) -> (i: int)
    requires
        0 <= s < n,
    ensures
        0 <= i < members(order, ids, group_at(ids, s), n).len(),
        members(order, ids, group_at(ids, s), n)[i] == order[s],
    decreases n,
{
    let k = group_at(ids, s);
    let rest = members(order, ids, k, (n - 1) as nat);
    if s == n - 1 {
        rest.len() as int
    } else {
        lemma_slot_member(order, ids, (n - 1) as nat, s)
    }
}

/// Where no element occurs twice, no list holds an element twice.
proof fn lemma_members_distinct(
    order: Seq<Position2d>,
    ids: Seq<usize>,
    k: nat,
    n: nat,
    i: int,
    j: int,
)
    requires
        order.no_duplicates(),
        n <= order.len(),
        0 <= i < j < members(order, ids, k, n).len(),
    ensures
        members(order, ids, k, n)[i] != members(order, ids, k, n)[j],
    decreases n,
{
    let rest = members(order, ids, k, (n - 1) as nat);
    if group_at(ids, n - 1) == k && j == rest.len() {
        let s = lemma_member_slot(order, ids, k, (n - 1) as nat, i);
    } else {
        lemma_members_distinct(order, ids, k, (n - 1) as nat, i, j);
    }
}

/// Listed members stand in the order of their places.
proof fn lemma_members_rising(
    order: Seq<Position2d>,
    ids: Seq<usize>,
    k: nat,
    n: nat,
    i: int,
    j: int,
) -> (slots: (int, int))
    requires
        n <= order.len(),
        0 <= i < j < members(order, ids, k, n).len(),
    ensures
        0 <= slots.0 < slots.1 < n,
        order[slots.0] == members(order, ids, k, n)[i],
        order[slots.1] == members(order, ids, k, n)[j],
        group_at(ids, slots.0) == k,
        group_at(ids, slots.1) == k,
    decreases n,
{
    let rest = members(order, ids, k, (n - 1) as nat);
    if group_at(ids, n - 1) == k && j == rest.len() {
        let s = lemma_member_slot(order, ids, k, (n - 1) as nat, i);
        (s, n - 1)
    } else {
        lemma_members_rising(order, ids, k, (n - 1) as nat, i, j)
    }
}

/// The last member of a list is the element at the entry that stands for
/// the set.
proof fn lemma_last_member(order: Seq<Position2d>, ids: Seq<usize>, k: nat, total: nat) -> (root:
    int)
    requires
        ids_ok(ids),
        total == ids.len(),
        total == order.len(),
        k < count_roots(ids, total),
    ensures
        0 <= root < total,
        ids[root] == root,
        count_roots(ids, root as nat) == k,
        members(order, ids, k, total).len() > 0,
        members(order, ids, k, total).last() == order[root],
{
    let root = lemma_numbered(ids, k, total);
    assert(root_of(ids, root) == root);
    lemma_count_listed(order, ids, k, total, root);
    if listed_below(ids, k, root as nat) + 1 < listed_below(ids, k, total) {
        // A later place with the set's number would lead to a later entry
        // that stands for a set with the same number.
        let later = lemma_listed_after(order, ids, k, total, root);
        lemma_root(ids, later);
        lemma_set_ind_order(ids, root, root_of(ids, later));
    }
    root
}

/// How many places below `below` have the set's number `k`.
pub open spec fn listed_below(ids: Seq<usize>, k: nat, below: nat) -> nat
    decreases below,
{
    if below == 0 {
        0
    } else {
        listed_below(ids, k, (below - 1) as nat) + if group_at(ids, below - 1) == k {
            1nat
        } else {
            0nat
        }
    }
}

/// The list is as long as the places with the set's number are many, and
/// the element of such a place stands in the list where the places before
/// it with that number end.
proof fn lemma_count_listed(order: Seq<Position2d>, ids: Seq<usize>, k: nat, n: nat, s: int)
    requires
        0 <= s < n,
        group_at(ids, s) == k,
    ensures
        members(order, ids, k, n).len() == listed_below(ids, k, n),
        listed_below(ids, k, s as nat) < listed_below(ids, k, n),
        members(order, ids, k, n)[listed_below(ids, k, s as nat) as int] == order[s],
    decreases n,
{
    lemma_listed_len(order, ids, k, (n - 1) as nat);
    lemma_listed_len(order, ids, k, n);
    if s < n - 1 {
        lemma_count_listed(order, ids, k, (n - 1) as nat, s);
    }
}

/// The list is as long as the places with the set's number are many.
proof fn lemma_listed_len(order: Seq<Position2d>, ids: Seq<usize>, k: nat, n: nat)
    ensures
        members(order, ids, k, n).len() == listed_below(ids, k, n),
    decreases n,
{
    if n > 0 {
        lemma_listed_len(order, ids, k, (n - 1) as nat);
    }
}

/// Where the element of the place `s` is not the last of the list, a later
/// place has the set's number too.
proof fn lemma_listed_after(order: Seq<Position2d>, ids: Seq<usize>, k: nat, n: nat, s: int) -> (t:
    int)
    requires
        0 <= s < n,
        group_at(ids, s) == k,
        listed_below(ids, k, s as nat) + 1 < listed_below(ids, k, n),
    ensures
        s < t < n,
        group_at(ids, t) == k,
    decreases n,
{
    if group_at(ids, n - 1) == k && n - 1 > s {
        n - 1
    } else {
        lemma_listed_after(order, ids, k, (n - 1) as nat, s)
    }
}

/// The entries that stand for a set are numbered below the count of all.
proof fn lemma_set_ind(ids: Seq<usize>, r: int, total: nat)
    requires
        0 <= r < total,
        total <= ids.len(),
        ids[r] == r,
    ensures
        count_roots(ids, r as nat) < count_roots(ids, total),
    decreases total,
{
    if r < total - 1 {
        lemma_set_ind(ids, r, (total - 1) as nat);
    }
}

/// Earlier entries that stand for a set have smaller numbers.
proof fn lemma_set_ind_order(ids: Seq<usize>, a: int, b: int)
    requires
        0 <= a < b < ids.len(),
        ids[a] == a,
    ensures
        count_roots(ids, a as nat) < count_roots(ids, b as nat),
    decreases b,
{
    if a < b - 1 {
        lemma_set_ind_order(ids, a, b - 1);
    }
}

/// Every number below the count of the entries that stand for a set is the
/// number of one of them.
proof fn lemma_numbered(ids: Seq<usize>, g: nat, total: nat) -> (r: int)
    requires
        total <= ids.len(),
        g < count_roots(ids, total),
    ensures
        0 <= r < total,
        ids[r] == r,
        count_roots(ids, r as nat) == g,
    decreases total,
{
    if ids[total - 1] == total - 1 && count_roots(ids, (total - 1) as nat) == g {
        total - 1
    } else {
        lemma_numbered(ids, g, (total - 1) as nat)
    }
}

impl Union {
    /// Follows the chain of entries from `ind` to its end.
    fn follow(set_ids: &Vec<usize>, ind: usize) -> (root: usize)
        requires
            ids_ok(set_ids@),
            ind < set_ids@.len(),
        ensures
            root == root_of(set_ids@, ind as int),
    {
        let mut cur = ind;
        while set_ids[cur] != cur
            invariant
                ids_ok(set_ids@),
                cur < set_ids@.len(),
                root_of(set_ids@, cur as int) == root_of(set_ids@, ind as int),
            decreases set_ids@.len() - cur,
        {
            cur = set_ids[cur];
        }
        cur
    }

    /// What the lists of `into_sets` hold.
    proof fn lemma_sets(&self, sets: Seq<Seq<Position2d>>)
        requires
            self.wf(),
            sets.len() == self.count(),
            forall|k: int|
                0 <= k < sets.len() ==> #[trigger] sets[k] == members(
                    self.eles.order(),
                    self.set_ids@,
                    k as nat,
                    self.set_ids@.len(),
                ),
        ensures
            forall|g: int| 0 <= g < sets.len() ==> (#[trigger] sets[g]).len() > 0,
            forall|g: int, i: int|
                0 <= g < sets.len() && 0 <= i < sets[g].len() ==> self.contains(
                    #[trigger] sets[g][i],
                ),
            forall|p: Position2d|
                self.contains(p) ==> exists|g: int, i: int|
                    0 <= g < sets.len() && 0 <= i < sets[g].len() && #[trigger] sets[g][i] == p,
            forall|g: int, i: int, h: int, j: int|
                0 <= g < sets.len() && 0 <= i < sets[g].len() && 0 <= h < sets.len() && 0 <= j
                    < sets[h].len() ==> (self.same(#[trigger] sets[g][i], #[trigger] sets[h][j])
                    <==> g == h),
            forall|g: int, i: int, h: int, j: int|
                0 <= g < sets.len() && 0 <= i < sets[g].len() && 0 <= h < sets.len() && 0 <= j
                    < sets[h].len() && #[trigger] sets[g][i] == #[trigger] sets[h][j] ==> g == h
                    && i == j,
            forall|g: int, i: int, j: int|
                0 <= g < sets.len() && 0 <= i < j < sets[g].len() ==> self.slot(
                    #[trigger] sets[g][i],
                ) < self.slot(#[trigger] sets[g][j]),
            forall|g: int, h: int|
                0 <= g < h < sets.len() ==> self.slot((#[trigger] sets[g]).last()) < self.slot(
                    (#[trigger] sets[h]).last(),
                ),
    {
        let ids = self.set_ids@;
        let order = self.eles.order();
        let total = ids.len();
        self.eles.lemma_len();
        assert forall|g: int| 0 <= g < sets.len() implies (#[trigger] sets[g]).len() > 0 by {
            let r = lemma_numbered(ids, g as nat, total);
            assert(root_of(ids, r) == r);
            let i = lemma_slot_member(order, ids, total, r);
        }
        assert forall|g: int, i: int| 0 <= g < sets.len() && 0 <= i < sets[g].len() implies self.contains(
            #[trigger] sets[g][i],
        ) by {
            let s = lemma_member_slot(order, ids, g as nat, total, i);
            assert(order.contains(sets[g][i]));
        }
        assert forall|p: Position2d| self.contains(p) implies exists|g: int, i: int|
            0 <= g < sets.len() && 0 <= i < sets[g].len() && #[trigger] sets[g][i] == p by {
            let s = self.slot(p);
            lemma_root(ids, s);
            lemma_set_ind(ids, root_of(ids, s), total);
            let g = group_at(ids, s) as int;
            let i = lemma_slot_member(order, ids, total, s);
            assert(sets[g][i] == p);
        }
        assert forall|g: int, i: int, h: int, j: int|
            0 <= g < sets.len() && 0 <= i < sets[g].len() && 0 <= h < sets.len() && 0 <= j
                < sets[h].len() implies (self.same(#[trigger] sets[g][i], #[trigger] sets[h][j])
            <==> g == h) && (sets[g][i] == sets[h][j] ==> g == h && i == j) by {
            let s = lemma_member_slot(order, ids, g as nat, total, i);
            let t = lemma_member_slot(order, ids, h as nat, total, j);
            assert(order.contains(sets[g][i]));
            assert(order.contains(sets[h][j]));
            assert(self.slot(sets[g][i]) == s);
            assert(self.slot(sets[h][j]) == t);
            lemma_root(ids, s);
            lemma_root(ids, t);
            let rs = root_of(ids, s);
            let rt = root_of(ids, t);
            if rs < rt {
                lemma_set_ind_order(ids, rs, rt);
            } else if rt < rs {
                lemma_set_ind_order(ids, rt, rs);
            }
            if sets[g][i] == sets[h][j] && g == h {
                if i < j {
                    lemma_members_distinct(order, ids, g as nat, total, i, j);
                } else if j < i {
                    lemma_members_distinct(order, ids, g as nat, total, j, i);
                }
            }
        }
        assert forall|g: int, i: int, j: int|
            0 <= g < sets.len() && 0 <= i < j < sets[g].len() implies self.slot(
            #[trigger] sets[g][i],
        ) < self.slot(#[trigger] sets[g][j]) by {
            let (s, t) = lemma_members_rising(order, ids, g as nat, total, i, j);
            assert(order.contains(sets[g][i]) && order.contains(sets[g][j]));
            assert(self.slot(sets[g][i]) == s && self.slot(sets[g][j]) == t);
        }
        assert forall|g: int, h: int| 0 <= g < h < sets.len() implies self.slot(
            (#[trigger] sets[g]).last(),
        ) < self.slot((#[trigger] sets[h]).last()) by {
            let rg = lemma_last_member(order, ids, g as nat, total);
            let rh = lemma_last_member(order, ids, h as nat, total);
            assert(order.contains(order[rg]) && order.contains(order[rh]));
            assert(self.slot(order[rg]) == rg && self.slot(order[rh]) == rh);
            if rh < rg {
                lemma_set_ind_order(ids, rh, rg);
            }
        }
    }
}

} // verus!
