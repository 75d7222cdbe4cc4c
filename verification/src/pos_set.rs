//! A finite set of positions whose members can also be read by index.

use crate::maze::Position2d;
use std::collections::HashMap;
use vstd::prelude::*;

verus! {

/// The number that stands for a position in the table of places: the first
/// coordinate in the upper half, the second in the lower.
pub open spec fn key_of(pos: Position2d) -> u128 {
    (pos.0 * 0x1_0000_0000_0000_0000 + pos.1) as u128
}

/// Different positions have different keys.
pub proof fn lemma_key_unique(a: Position2d, b: Position2d)
    requires
        key_of(a) == key_of(b),
    ensures
        a == b,
{
    assert(usize::MAX <= 0xFFFF_FFFF_FFFF_FFFF);
    assert(a.0 == b.0) by (nonlinear_arith)
        requires
            a.0 * 0x1_0000_0000_0000_0000 + a.1 == b.0 * 0x1_0000_0000_0000_0000 + b.1,
            0 <= a.1 < 0x1_0000_0000_0000_0000,
            0 <= b.1 < 0x1_0000_0000_0000_0000,
    ;
}

/// The key of a position.
fn key(pos: &Position2d) -> (k: u128)
    ensures
        k == key_of(*pos),
{
    assert(usize::MAX <= 0xFFFF_FFFF_FFFF_FFFF);
    let upper = pos.0 as u128;
    let lower = pos.1 as u128;
    assert(upper * 0x1_0000_0000_0000_0000 <= 0xFFFF_FFFF_FFFF_FFFF * 0x1_0000_0000_0000_0000)
        by (nonlinear_arith)
        requires
            upper <= 0xFFFF_FFFF_FFFF_FFFF,
    ;
    upper * 0x1_0000_0000_0000_0000 + lower
}

/// A set of positions. Its members can be counted, tested, and read by
/// their index in an order that insertion extends at its end.
pub struct PosSet {
    items: Vec<Position2d>,
    places: HashMap<u128, usize>,
}

impl View for PosSet {
    type V = Set<Position2d>;

    open spec fn view(&self) -> Set<Position2d> {
        self.order().to_set()
    }
}

impl PosSet {
    /// The members in order.
    pub closed spec fn order(&self) -> Seq<Position2d> {
        self.items@
    }

    /// No position is held twice, and the table of places holds the place
    /// of every member.
    pub closed spec fn wf(&self) -> bool {
        &&& self.items@.no_duplicates()
        &&& forall|i: int|
            0 <= i < self.items@.len() ==> self.places@.contains_key(
                key_of(#[trigger] self.items@[i]),
            ) && self.places@[key_of(self.items@[i])] == i
        &&& forall|k: u128| #[trigger]
            self.places@.contains_key(k) ==> self.places@[k] < self.items@.len() && key_of(
                self.items@[self.places@[k] as int],
            ) == k
    }

    /// The view is finite, and as large as the order is long.
    pub proof fn lemma_len(&self)
        requires
            self.wf(),
        ensures
            self@.finite(),
            self@.len() == self.order().len(),
            self.order().no_duplicates(),
    {
        self.items@.unique_seq_to_set();
    }

    /// The empty set.
    pub fn new() -> (set: Self)
        ensures
            set.wf(),
            set.order() == Seq::<Position2d>::empty(),
            set@ == Set::<Position2d>::empty(),
    {
        let set = PosSet { items: Vec::new(), places: HashMap::new() };
        assert(set.order().to_set() =~= Set::<Position2d>::empty());
        set
    }

    /// The number of members.
    pub fn len(&self) -> (n: usize)
        requires
            self.wf(),
        ensures
            n == self@.len(),
            n == self.order().len(),
            self.order().no_duplicates(),
    {
        proof {
            self.items@.unique_seq_to_set();
        }
        self.items.len()
    }

    /// Whether the set has no member.
    pub fn is_empty(&self) -> (empty: bool)
        requires
            self.wf(),
        ensures
            empty == (self@.len() == 0),
            empty == (self@ == Set::<Position2d>::empty()),
    {
        proof {
            self.items@.unique_seq_to_set();
            if self.items@.len() == 0 {
                assert(self@ =~= Set::<Position2d>::empty());
            }
        }
        self.items.len() == 0
    }

    /// The place of `pos` in the order, if it is a member.
    pub fn index_of(&self, pos: &Position2d) -> (found: Option<usize>)
        requires
            self.wf(),
        ensures
            found is Some <==> self@.contains(*pos),
            found is Some ==> found->0 < self.order().len() && self.order()[found->0 as int]
                == *pos,
    {
        let k = key(pos);
        match self.places.get(&k) {
            Some(place) => {
                proof {
                    assert(self.places@.contains_key(k));
                    lemma_key_unique(self.items@[*place as int], *pos);
                }
                Some(*place)
            },
            None => {
                proof {
                    if self.items@.contains(*pos) {
                        let i = choose|i: int| 0 <= i < self.items@.len() && self.items@[i] == *pos;
                        assert(self.places@.contains_key(key_of(self.items@[i])));
                    }
                }
                None
            },
        }
    }

    /// Whether `pos` is a member.
    pub fn contains(&self, pos: &Position2d) -> (found: bool)
        requires
            self.wf(),
        ensures
            found == self@.contains(*pos),
    {
        self.index_of(pos).is_some()
    }

    /// The member at `index` in the order.
    pub fn get(&self, index: usize) -> (pos: Position2d)
        requires
            index < self.order().len(),
        ensures
            pos == self.order()[index as int],
            self@.contains(pos),
    {
        self.items[index]
    }

    /// Adds `pos`, at the end of the order, and says whether it was new.
    pub fn insert(&mut self, pos: Position2d) -> (fresh: bool)
        requires
            old(self).wf(),
        ensures
            final(self).wf(),
            fresh == !old(self)@.contains(pos),
            final(self)@ == old(self)@.insert(pos),
            fresh ==> final(self).order() == old(self).order().push(pos),
            !fresh ==> final(self).order() == old(self).order(),
    {
        if self.contains(&pos) {
            assert(self@ =~= self@.insert(pos));
            false
        } else {
            let ghost before = self.items@;
            let ghost places_before = self.places@;
            let k = key(&pos);
            let place = self.items.len();
            self.items.push(pos);
            self.places.insert(k, place);
            proof {
                assert(!places_before.contains_key(k)) by {
                    if places_before.contains_key(k) {
                        lemma_key_unique(before[places_before[k] as int], pos);
                        assert(before.contains(pos));
                    }
                }
                assert forall|i: int| 0 <= i < self.items@.len() implies self.places@.contains_key(
                    key_of(#[trigger] self.items@[i]),
                ) && self.places@[key_of(self.items@[i])] == i by {
                    if i < before.len() {
                        assert(self.items@[i] == before[i]);
                        assert(places_before.contains_key(key_of(before[i])));
                    }
                }
                assert forall|j: u128| #[trigger] self.places@.contains_key(j) implies self.places@[j]
                    < self.items@.len() && key_of(self.items@[self.places@[j] as int]) == j by {
                    if j != k {
                        assert(places_before.contains_key(j));
                        assert(self.items@[places_before[j] as int] == before[places_before[j] as int]);
                    }
                }
                assert(self.items@.to_set() =~= before.to_set().insert(pos)) by {
                    assert forall|p: Position2d| before.to_set().insert(pos).contains(
                        p,
                    ) implies self.items@.contains(p) by {
                        if p == pos {
                            assert(self.items@[before.len() as int] == pos);
                        } else {
                            let j = choose|j: int| 0 <= j < before.len() && before[j] == p;
                            assert(self.items@[j] == p);
                        }
                    }
                }
            }
            true
        }
    }

    /// Takes `pos` out and says whether it was a member. The last member
    /// in the order takes its place.
    pub fn remove(&mut self, pos: &Position2d) -> (found: bool)
        requires
            old(self).wf(),
        ensures
            final(self).wf(),
            found == old(self)@.contains(*pos),
            final(self)@ == old(self)@.remove(*pos),
            !found ==> final(self).order() == old(self).order(),
            found ==> final(self).order().len() == old(self).order().len() - 1,
            forall|k: int|
                0 <= k < final(self).order().len() ==> #[trigger] final(self).order()[k] == if old(self).order()[k] == *pos {
                    old(self).order().last()
                } else {
                    old(self).order()[k]
                },
    {
        match self.index_of(pos) {
            None => {
                assert(self@ =~= self@.remove(*pos));
                false
            },
            Some(place) => {
                let ghost before = self.items@;
                let ghost places_before = self.places@;
                let last_place = self.items.len() - 1;
                let last = self.items[last_place];
                let k = key(pos);
                let last_key = key(&last);
                self.items.swap_remove(place);
                self.places.remove(&k);
                if place != last_place {
                    self.places.insert(last_key, place);
                }
                proof {
                    let after = self.items@;
                    assert(after == before.update(place as int, last).drop_last());
                    assert forall|j: int| 0 <= j < after.len() implies #[trigger] after[j] == if j
                        == place {
                        last
                    } else {
                        before[j]
                    } by {}
                    assert forall|j: int, l: int| 0 <= j < l < after.len() implies after[j]
                        != after[l] by {
                        assert(before[j] != before[last_place as int] || j == last_place);
                        assert(before[l] != before[last_place as int] || l == last_place);
                    }
                    assert forall|i: int| 0 <= i < after.len() implies self.places@.contains_key(
                        key_of(#[trigger] after[i]),
                    ) && self.places@[key_of(after[i])] == i by {
                        if i != place {
                            assert(after[i] == before[i]);
                            assert(places_before.contains_key(key_of(before[i])));
                            if key_of(before[i]) == k {
                                lemma_key_unique(before[i], *pos);
                            }
                            if key_of(before[i]) == last_key {
                                lemma_key_unique(before[i], last);
                            }
                        }
                    }
                    assert forall|j: u128| #[trigger]
                        self.places@.contains_key(j) implies self.places@[j] < after.len()
                        && key_of(after[self.places@[j] as int]) == j by {
                        if j == last_key && place != last_place {
                        } else {
                            assert(places_before.contains_key(j));
                            let at = places_before[j] as int;
                            if at == last_place {
                                assert(key_of(before[at]) == j);
                            }
                        }
                    }
                    assert(after.to_set() =~= before.to_set().remove(*pos)) by {
                        assert forall|p: Position2d| after.to_set().contains(p) implies before.to_set().remove(
                            *pos,
                        ).contains(p) by {
                            let j = choose|j: int| 0 <= j < after.len() && after[j] == p;
                            if j == place {
                                assert(before[last_place as int] == p);
                            } else {
                                assert(before[j] == p);
                            }
                        }
                        assert forall|p: Position2d|
                            before.to_set().remove(*pos).contains(p) implies after.to_set().contains(
                            p,
                        ) by {
                            let j = choose|j: int| 0 <= j < before.len() && before[j] == p;
                            if j == last_place {
                                assert(after[place as int] == p);
                            } else {
                                assert(after[j] == p);
                            }
                        }
                    }
                }
                true
            },
        }
    }

    /// Takes every member out.
    pub fn clear(&mut self)
        ensures
            final(self).wf(),
            final(self).order() == Seq::<Position2d>::empty(),
            final(self)@ == Set::<Position2d>::empty(),
    {
        self.items.clear();
        self.places.clear();
        assert(self.items@.to_set() =~= Set::<Position2d>::empty());
    }

    /// Keeps the first `len` members of the order and takes the others
    /// out.
    pub fn truncate(&mut self, len: usize)
        requires
            old(self).wf(),
            len <= old(self).order().len(),
        ensures
            final(self).wf(),
            final(self).order() == old(self).order().subrange(0, len as int),
    {
        while self.items.len() > len
            invariant
                self.wf(),
                len <= self.items@.len() <= old(self).items@.len(),
                self.items@ == old(self).items@.subrange(0, self.items@.len() as int),
            decreases self.items@.len(),
        {
            let ghost before = self.items@;
            let ghost places_before = self.places@;
            let last = self.items.pop().unwrap();
            let k = key(&last);
            self.places.remove(&k);
            proof {
                let after = self.items@;
                assert(after =~= old(self).items@.subrange(0, after.len() as int));
                assert forall|i: int| 0 <= i < after.len() implies self.places@.contains_key(
                    key_of(#[trigger] after[i]),
                ) && self.places@[key_of(after[i])] == i by {
                    assert(after[i] == before[i]);
                    assert(places_before.contains_key(key_of(before[i])));
                    if key_of(before[i]) == k {
                        lemma_key_unique(before[i], last);
                    }
                }
                assert forall|j: u128| #[trigger]
                    self.places@.contains_key(j) implies self.places@[j] < after.len() && key_of(
                    after[self.places@[j] as int],
                ) == j by {
                    assert(places_before.contains_key(j));
                    let at = places_before[j] as int;
                    if at == after.len() {
                        assert(key_of(before[at]) == j);
                    }
                }
            }
        }
    }
}

} // verus!
