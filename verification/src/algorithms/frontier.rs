use crate::board::board::Board;
use vstd::multiset::Multiset;
use vstd::prelude::*;
use vstd::seq_lib::{to_multiset_build, to_multiset_len, to_multiset_remove, to_multiset_update};

verus! {

/// Which entry of the frontier leaves first.
#[derive(Debug, PartialEq, Eq, Structural, Clone, Copy)]
pub enum Discipline {
    /// The one with the lowest cost; among those, the one that came first.
    Cheapest,
    /// The one that came last.
    Newest,
}

/// A board that waits to be expanded: where it was reached from (the place
/// of that board among those already expanded), what it costs, and the
/// number it drew when it came.
pub struct Entry {
    pub board: Board,
    pub parent: Option<usize>,
    pub cost: usize,
    pub order: u64,
}

/// `a` leaves before `b`.
pub open spec fn precedes(discipline: Discipline, a: Entry, b: Entry) -> bool {
    match discipline {
        Discipline::Cheapest => a.cost < b.cost || (a.cost == b.cost && a.order < b.order),
        Discipline::Newest => a.order > b.order,
    }
}

/// The boards that wait to be expanded, kept as a binary heap: the entry in
/// a slot leaves no later than the entries in the two slots below it.
pub struct Frontier {
    slots: Vec<Option<Entry>>,
    discipline: Discipline,
    pushed: u64,
}

/// The entries in the slots.
spec fn entries_of(slots: Seq<Option<Entry>>) -> Seq<Entry> {
    slots.map_values(|slot: Option<Entry>| slot.unwrap())
}

/// Every slot holds an entry.
spec fn all_filled(slots: Seq<Option<Entry>>) -> bool {
    forall|i: int| 0 <= i < slots.len() ==> (#[trigger] slots[i]) is Some
}

/// The entry at `child` leaves no earlier than the entry above it.
spec fn in_order(discipline: Discipline, entries: Seq<Entry>, child: int) -> bool {
    !precedes(discipline, entries[child], entries[(child - 1) / 2])
}

/// The entry at `child` leaves no earlier than the entry at `top`.
spec fn under(discipline: Discipline, entries: Seq<Entry>, child: int, top: int) -> bool {
    !precedes(discipline, entries[child], entries[top])
}

/// Every entry but the one at `skip` leaves no earlier than the entry above it.
spec fn ordered_below(discipline: Discipline, entries: Seq<Entry>, skip: int) -> bool {
    forall|child: int|
        1 <= child < entries.len() && child != skip ==> #[trigger] in_order(
            discipline,
            entries,
            child,
        )
}

/// Every entry but those right below `skip` leaves no earlier than the entry
/// above it.
spec fn ordered_above(discipline: Discipline, entries: Seq<Entry>, skip: int) -> bool {
    forall|child: int|
        1 <= child < entries.len() && (child - 1) / 2 != skip ==> #[trigger] in_order(
            discipline,
            entries,
            child,
        )
}

/// The entries right below `at` leave no earlier than the entry above `at`.
spec fn bridged(discipline: Discipline, entries: Seq<Entry>, at: int) -> bool {
    at >= 1 ==> forall|child: int|
        1 <= child < entries.len() && (child - 1) / 2 == at ==> #[trigger] under(
            discipline,
            entries,
            child,
            (at - 1) / 2,
        )
}

/// Where `a` leaves no later than `b`, and `b` no later than `c`, `a` leaves
/// no later than `c`.
proof fn lemma_no_later_chains(discipline: Discipline, a: Entry, b: Entry, c: Entry)
    requires
        !precedes(discipline, b, a),
        !precedes(discipline, c, b),
    ensures
        !precedes(discipline, c, a),
{
}

/// In a heap no entry leaves before the one on top.
proof fn lemma_top_leaves_first(discipline: Discipline, entries: Seq<Entry>, k: int)
    requires
        ordered_below(discipline, entries, -1),
        0 <= k < entries.len(),
    ensures
        !precedes(discipline, entries[k], entries[0]),
    decreases k,
{
    if k > 0 {
        lemma_top_leaves_first(discipline, entries, (k - 1) / 2);
        assert(in_order(discipline, entries, k));
        lemma_no_later_chains(discipline, entries[0], entries[(k - 1) / 2], entries[k]);
    }
}

/// Exchanging two slots exchanges their entries and keeps the entries that
/// there are.
proof fn lemma_exchange_keeps_entries(slots: Seq<Option<Entry>>, i: int, j: int)
    requires
        all_filled(slots),
        0 <= i < slots.len(),
        0 <= j < slots.len(),
    ensures
        all_filled(slots.update(i, slots[j]).update(j, slots[i])),
        entries_of(slots.update(i, slots[j]).update(j, slots[i])) == entries_of(slots).update(
            i,
            entries_of(slots)[j],
        ).update(j, entries_of(slots)[i]),
        entries_of(slots.update(i, slots[j]).update(j, slots[i])).to_multiset() == entries_of(
            slots,
        ).to_multiset(),
{
    broadcast use to_multiset_update;

    let entries = entries_of(slots);
    let after = slots.update(i, slots[j]).update(j, slots[i]);
    assert(entries_of(after) =~= entries.update(i, entries[j]).update(j, entries[i]));
    let half = entries.update(i, entries[j]);
    assert(half.to_multiset() =~= entries.to_multiset().insert(entries[j]).remove(entries[i]));
    assert(half.update(j, entries[i]).to_multiset() =~= half.to_multiset().insert(
        entries[i],
    ).remove(half[j]));
    assert(entries.to_multiset().count(entries[i]) > 0) by {
        vstd::seq_lib::to_multiset_contains(entries, entries[i]);
        assert(entries.contains(entries[i]));
    }
    assert(entries.to_multiset().count(entries[j]) > 0) by {
        vstd::seq_lib::to_multiset_contains(entries, entries[j]);
        assert(entries.contains(entries[j]));
    }
    assert(half.update(j, entries[i]).to_multiset() =~= entries.to_multiset());
}

/// Exchanges the entries of two slots.
fn exchange(slots: &mut Vec<Option<Entry>>, i: usize, j: usize)
    requires
        i < old(slots).len(),
        j < old(slots).len(),
        i != j,
    ensures
        final(slots)@ == old(slots)@.update(i as int, old(slots)[j as int]).update(
            j as int,
            old(slots)[i as int],
        ),
{
    let first = slots[i].take();
    let second = slots[j].take();
    slots[i] = second;
    slots[j] = first;
    assert(slots@ =~= old(slots)@.update(i as int, old(slots)[j as int]).update(
        j as int,
        old(slots)[i as int],
    ));
}

impl View for Frontier {
    type V = Multiset<Entry>;

    closed spec fn view(&self) -> Multiset<Entry> {
        entries_of(self.slots@).to_multiset()
    }
}

impl Frontier {
    /// The discipline the frontier was made with.
    pub closed spec fn discipline(&self) -> Discipline {
        self.discipline
    }

    /// The number that the next entry draws.
    pub closed spec fn pushed(&self) -> u64 {
        self.pushed
    }

    /// Every slot holds an entry, and the slots are a heap.
    pub closed spec fn wf(&self) -> bool {
        &&& all_filled(self.slots@)
        &&& ordered_below(self.discipline, entries_of(self.slots@), -1)
    }

    /// A frontier in which nothing waits.
    pub fn new(discipline: Discipline) -> (frontier: Self)
        ensures
            frontier.wf(),
            frontier@ == Multiset::<Entry>::empty(),
            frontier.discipline() == discipline,
            frontier.pushed() == 0,
    {
        let frontier = Frontier { slots: Vec::new(), discipline, pushed: 0 };
        proof {
            entries_of(frontier.slots@).to_multiset_ensures();
            assert(frontier@.len() == 0);
            assert(frontier@ =~= Multiset::<Entry>::empty());
        }
        frontier
    }

    /// The discipline the frontier was made with.
    pub fn discipline_of(&self) -> (discipline: Discipline)
        ensures
            discipline == self.discipline(),
    {
        self.discipline
    }

    /// Whether the entry in the slot `a` leaves before the one in the slot `b`.
    fn leaves_first(&self, a: usize, b: usize) -> (first: bool)
        requires
            all_filled(self.slots@),
            a < self.slots.len(),
            b < self.slots.len(),
        ensures
            first == precedes(
                self.discipline,
                entries_of(self.slots@)[a as int],
                entries_of(self.slots@)[b as int],
            ),
    {
        match (&self.slots[a], &self.slots[b]) {
            (Some(left), Some(right)) => match self.discipline {
                Discipline::Cheapest => left.cost < right.cost || (left.cost == right.cost
                    && left.order < right.order),
                Discipline::Newest => left.order > right.order,
            },
            _ => false,
        }
    }

    /// Adds a board. The numbers drawn count up, and stay at the largest
    /// number once it is reached.
    pub fn push(&mut self, board: Board, parent: Option<usize>, cost: usize)
        requires
            old(self).wf(),
        ensures
            final(self).wf(),
            final(self)@ == old(self)@.insert(
                Entry { board, parent, cost, order: old(self).pushed() },
            ),
            final(self).discipline() == old(self).discipline(),
            final(self).pushed() == if old(self).pushed() < u64::MAX {
                (old(self).pushed() + 1) as u64
            } else {
                u64::MAX
            },
    {
        broadcast use to_multiset_build;

        let entry = Entry { board, parent, cost, order: self.pushed };
        let ghost before = entries_of(self.slots@);
        self.slots.push(Some(entry));
        if self.pushed < u64::MAX {
            self.pushed = self.pushed + 1;
        }
        assert(entries_of(self.slots@) =~= before.push(entry));
        proof {
            let entries = entries_of(self.slots@);
            assert forall|child: int|
                1 <= child < entries.len() && child != entries.len() - 1 implies #[trigger] in_order(
                self.discipline,
                entries,
                child,
            ) by {
                assert(in_order(self.discipline, before, child));
            }
        }
        let ghost waiting = self@;
        let mut at: usize = self.slots.len() - 1;
        while at > 0 && self.leaves_first(at, (at - 1) / 2)
            invariant
                at < self.slots.len(),
                all_filled(self.slots@),
                self@ == waiting,
                self.discipline == old(self).discipline,
                self.pushed == if old(self).pushed < u64::MAX {
                    (old(self).pushed + 1) as u64
                } else {
                    u64::MAX
                },
                ordered_below(self.discipline, entries_of(self.slots@), at as int),
                bridged(self.discipline, entries_of(self.slots@), at as int),
            decreases at,
        {
            let above = (at - 1) / 2;
            let ghost slots = self.slots@;
            let ghost entries = entries_of(slots);
            exchange(&mut self.slots, at, above);
            proof {
                lemma_exchange_keeps_entries(slots, at as int, above as int);
                let changed = entries_of(self.slots@);
                let d = self.discipline;
                assert forall|child: int|
                    1 <= child < changed.len() && child != above implies #[trigger] in_order(
                    d,
                    changed,
                    child,
                ) by {
                    if child == at {
                    } else if (child - 1) / 2 == above {
                        assert(in_order(d, entries, child));
                        lemma_no_later_chains(
                            d,
                            entries[at as int],
                            entries[above as int],
                            entries[child],
                        );
                    } else if (child - 1) / 2 == at {
                        assert(under(d, entries, child, above as int));
                    } else {
                        assert(in_order(d, entries, child));
                        assert(changed[child] == entries[child]);
                        assert(changed[(child - 1) / 2] == entries[(child - 1) / 2]);
                    }
                }
                if above >= 1 {
                    assert forall|child: int|
                        1 <= child < changed.len() && (child - 1) / 2 == above implies #[trigger] under(
                        d,
                        changed,
                        child,
                        (above - 1) / 2,
                    ) by {
                        let top = (above - 1) / 2;
                        assert(in_order(d, entries, above as int));
                        if child != at {
                            assert(in_order(d, entries, child));
                            lemma_no_later_chains(
                                d,
                                entries[top],
                                entries[above as int],
                                entries[child],
                            );
                        }
                    }
                }
            }
            at = above;
        }
        proof {
            let entries = entries_of(self.slots@);
            assert forall|child: int| 1 <= child < entries.len() implies #[trigger] in_order(
                self.discipline,
                entries,
                child,
            ) by {}
        }
    }

    /// Takes out the entry that leaves first: one that no other precedes.
    pub fn pop(&mut self) -> (entry: Option<Entry>)
        requires
            old(self).wf(),
        ensures
            final(self).wf(),
            final(self).discipline() == old(self).discipline(),
            final(self).pushed() == old(self).pushed(),
            match entry {
                Some(first) => {
                    &&& old(self)@.contains(first)
                    &&& final(self)@ == old(self)@.remove(first)
                    &&& forall|other: Entry|
                        old(self)@.contains(other) ==> !precedes(
                            old(self).discipline(),
                            other,
                            first,
                        )
                },
                None => old(self)@.len() == 0 && final(self)@ == old(self)@,
            },
    {
        broadcast use {to_multiset_remove, to_multiset_len, to_multiset_update};

        let ghost before = entries_of(self.slots@);
        if self.slots.len() == 0 {
            return None;
        }
        let ghost old_slots = self.slots@;
        let top = self.slots.swap_remove(0);
        let first = match top {
            Some(first) => first,
            None => {
                proof {
                    assert(old_slots[0] is Some);
                    assert(false);
                }
                return None;
            },
        };
        proof {
            assert(first == before[0]);
            assert(before.contains(first));
            vstd::seq_lib::to_multiset_contains(before, first);
            assert forall|other: Entry| old(self)@.contains(other) implies !precedes(
                old(self).discipline(),
                other,
                first,
            ) by {
                vstd::seq_lib::to_multiset_contains(before, other);
                let k = choose|k: int| 0 <= k < before.len() && before[k] == other;
                lemma_top_leaves_first(self.discipline, before, k);
            }
            let rest = entries_of(self.slots@);
            assert(rest =~= before.update(0, before.last()).drop_last());
            if before.len() > 1 {
                assert(before.update(0, before.last()).to_multiset() =~= before.to_multiset().insert(
                    before.last(),
                ).remove(first));
                let moved = before.update(0, before.last());
                assert(moved.drop_last() =~= moved.remove(moved.len() - 1));
                assert(moved.remove(moved.len() - 1).to_multiset() =~= moved.to_multiset().remove(
                    moved.last(),
                ));
                assert(before.to_multiset().count(before.last()) > 0) by {
                    vstd::seq_lib::to_multiset_contains(before, before.last());
                    assert(before.contains(before.last()));
                }
                assert(rest.to_multiset() =~= before.to_multiset().remove(first));
            } else {
                assert(rest =~= before.remove(0));
                assert(rest.to_multiset() =~= before.to_multiset().remove(first));
            }
            assert forall|child: int|
                1 <= child < rest.len() && (child - 1) / 2 != 0 implies #[trigger] in_order(
                self.discipline,
                rest,
                child,
            ) by {
                assert(in_order(self.discipline, before, child));
                assert(rest[child] == before[child]);
                assert(rest[(child - 1) / 2] == before[(child - 1) / 2]);
            }
        }
        let ghost waiting = self@;
        let mut at: usize = 0;
        loop
            invariant
                at < self.slots.len() || self.slots.len() == 0,
                all_filled(self.slots@),
                self@ == waiting,
                self.discipline == old(self).discipline,
                self.pushed == old(self).pushed,
                ordered_above(self.discipline, entries_of(self.slots@), at as int),
                bridged(self.discipline, entries_of(self.slots@), at as int),
            ensures
                all_filled(self.slots@),
                self@ == waiting,
                self.discipline == old(self).discipline,
                self.pushed == old(self).pushed,
                ordered_below(self.discipline, entries_of(self.slots@), -1),
            decreases self.slots.len() - at,
        {
            let len = self.slots.len();
            if len == 0 || at >= (len - 1) / 2 + 1 {
                proof {
                    let entries = entries_of(self.slots@);
                    assert forall|child: int| 1 <= child < entries.len() implies #[trigger] in_order(
                        self.discipline,
                        entries,
                        child,
                    ) by {
                        assert((child - 1) / 2 != at);
                    }
                }
                break ;
            }
            let left = 2 * at + 1;
            if left >= len {
                proof {
                    let entries = entries_of(self.slots@);
                    assert forall|child: int| 1 <= child < entries.len() implies #[trigger] in_order(
                        self.discipline,
                        entries,
                        child,
                    ) by {
                        assert((child - 1) / 2 != at);
                    }
                }
                break ;
            }
            let right = left + 1;
            let least = if right < len && self.leaves_first(right, left) {
                right
            } else {
                left
            };
            if !self.leaves_first(least, at) {
                proof {
                    let entries = entries_of(self.slots@);
                    let d = self.discipline;
                    assert forall|child: int| 1 <= child < entries.len() implies #[trigger] in_order(
                        d,
                        entries,
                        child,
                    ) by {
                        if (child - 1) / 2 == at {
                            assert(child == left || child == right);
                            if child != least {
                                lemma_no_later_chains(
                                    d,
                                    entries[at as int],
                                    entries[least as int],
                                    entries[child],
                                );
                            }
                        }
                    }
                }
                break ;
            }
            let ghost slots = self.slots@;
            let ghost entries = entries_of(slots);
            exchange(&mut self.slots, at, least);
            proof {
                lemma_exchange_keeps_entries(slots, at as int, least as int);
                let changed = entries_of(self.slots@);
                let d = self.discipline;
                assert forall|child: int|
                    1 <= child < changed.len() && (child - 1) / 2 != least implies #[trigger] in_order(
                    d,
                    changed,
                    child,
                ) by {
                    if child == at {
                        assert(at >= 1);
                        assert(under(d, entries, least as int, (at - 1) / 2));
                    } else if child == least {
                    } else if (child - 1) / 2 == at {
                        assert(child == left || child == right);
                    } else {
                        assert(in_order(d, entries, child));
                        assert(changed[child] == entries[child]);
                        assert(changed[(child - 1) / 2] == entries[(child - 1) / 2]);
                    }
                }
                assert forall|child: int|
                    1 <= child < changed.len() && (child - 1) / 2 == least implies #[trigger] under(
                    d,
                    changed,
                    child,
                    (least - 1) / 2,
                ) by {
                    assert(changed[child] == entries[child]);
                    assert(in_order(d, entries, child));
                }
            }
            at = least;
        }
        Some(first)
    }

    /// How many boards wait.
    pub fn len(&self) -> (len: usize)
        ensures
            len == self@.len(),
    {
        broadcast use to_multiset_len;

        self.slots.len()
    }
}

} // verus!
