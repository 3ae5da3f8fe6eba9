//! The frontier of one merge: the places still to be handed out, least value
//! first, and the record of the places that were ever added.
//!
//! A place is a position in the left list, a position in the right list and
//! a stream: the sum stream, which pairs the two nodes by the sum of their
//! sums, or the distance stream, which pairs them by the distance.

use crate::min_heap::{
    entry_le, heap_clear, heap_entries, heap_pop, heap_push, heap_with_capacity, max_capacity,
    Entry, MinHeap,
};
use crate::tree_attack::TreeAttackNode;
use std::collections::HashSet;
use vstd::multiset::Multiset;
use vstd::prelude::*;
use vstd::set_lib::{lemma_int_range, lemma_len_subset, set_int_range};

verus! {

/// The distance of two numbers.
pub open spec fn distance(x: int, y: int) -> int {
    if x >= y {
        x - y
    } else {
        y - x
    }
}

/// The value of a place: the sum or the distance of the sums of its two
/// nodes.
pub open spec fn place_value(
    left: Seq<TreeAttackNode>,
    right: Seq<TreeAttackNode>,
    pl: int,
    pr: int,
    is_sum: bool,
) -> int {
    if is_sum {
        left[pl].sum() + right[pr].sum()
    } else {
        distance(left[pl].sum(), right[pr].sum())
    }
}

/// An entry names a place of the two lists and carries its value.
pub open spec fn entry_ok(
    left: Seq<TreeAttackNode>,
    right: Seq<TreeAttackNode>,
    entry: Entry,
) -> bool {
    &&& entry.1 < left.len()
    &&& entry.2 < right.len()
    &&& entry.0 as int == place_value(left, right, entry.1 as int, entry.2 as int, entry.3)
}

/// The key of a pair of positions in the record of added places.
pub open spec fn place_key(pl: usize, pr: usize) -> u128 {
    (pl * 0x1_0000_0000_0000_0000 + pr) as u128
}

/// The number of a place among all places of two lists, the right one
/// `width` long.
pub open spec fn place_code(width: int, pl: int, pr: int, is_sum: bool) -> int {
    2 * (pl * width + pr) + if is_sum {
        1int
    } else {
        0int
    }
}

/// Different places have different numbers, all below twice the product of
/// the two lengths.
pub proof fn lemma_place_code(height: int, width: int, pl: int, pr: int, is_sum: bool)
    requires
        0 <= pl < height,
        0 <= pr < width,
    ensures
        0 <= place_code(width, pl, pr, is_sum) < 2 * height * width,
        2 * pl * width <= place_code(width, pl, pr, is_sum) < 2 * (pl + 1) * width,
        place_code(width, pl, pr, is_sum) % 2 == if is_sum {
            1int
        } else {
            0int
        },
        forall|ql: int, qr: int, q_sum: bool|
            0 <= ql && 0 <= qr < width && #[trigger] place_code(width, ql, qr, q_sum)
                == place_code(width, pl, pr, is_sum) ==> ql == pl && qr == pr && q_sum == is_sum,
{
    assert(0 <= pl * width <= (height - 1) * width) by (nonlinear_arith)
        requires
            0 <= pl < height,
            0 <= width,
    ;
    assert(2 * height * width == 2 * ((height - 1) * width) + 2 * width) by (nonlinear_arith);
    assert(2 * (pl + 1) * width == 2 * (pl * width) + 2 * width) by (nonlinear_arith);
    assert(2 * pl * width == 2 * (pl * width)) by (nonlinear_arith);
    assert forall|ql: int, qr: int, q_sum: bool|
        0 <= ql && 0 <= qr < width && #[trigger] place_code(width, ql, qr, q_sum) == place_code(
            width,
            pl,
            pr,
            is_sum,
        ) implies ql == pl && qr == pr && q_sum == is_sum by {
        assert(ql * width + qr == pl * width + pr);
        assert(ql == pl) by (nonlinear_arith)
            requires
                ql * width + qr == pl * width + pr,
                0 <= qr < width,
                0 <= pr < width,
        ;
        assert(ql * width == pl * width);
    }
}

/// The number of places of two lists.
pub open spec fn places(left: Seq<TreeAttackNode>, right: Seq<TreeAttackNode>) -> int {
    2 * (left.len() as int) * (right.len() as int)
}

/// The heap of a merge and the record of the places that were added to it.
pub struct Frontier {
    heap: MinHeap,
    added_sums: HashSet<u128>,
    added_diffs: HashSet<u128>,
    seen: Ghost<Set<int>>,
    popped: Ghost<nat>,
}

impl Frontier {
    /// The entries that wait on the heap.
    pub closed spec fn entries(&self) -> Multiset<Entry> {
        heap_entries(self.heap)
    }

    /// The numbers of the places that were pushed since the last `clear`.
    pub closed spec fn seen(&self) -> Set<int> {
        self.seen@
    }

    /// How many entries were popped since the last `clear`.
    pub closed spec fn popped(&self) -> nat {
        self.popped@
    }

    /// Whether the place is on record.
    pub closed spec fn marked(&self, pl: usize, pr: usize, is_sum: bool) -> bool {
        if is_sum {
            self.added_sums@.contains(place_key(pl, pr))
        } else {
            self.added_diffs@.contains(place_key(pl, pr))
        }
    }

    /// The frontier is sound for the lists `left` and `right`: every entry
    /// names a place and carries its value; every place was pushed once at
    /// most; and what was pushed is either popped or waits.
    pub closed spec fn ok(&self, left: Seq<TreeAttackNode>, right: Seq<TreeAttackNode>) -> bool {
        &&& forall|e: Entry| #[trigger]
            self.entries().count(e) > 0 ==> entry_ok(left, right, e) && self.entries().count(e)
                == 1 && self.seen@.contains(
                place_code(right.len() as int, e.1 as int, e.2 as int, e.3),
            )
        &&& self.seen@.finite()
        &&& self.seen@.subset_of(set_int_range(0, places(left, right)))
        &&& self.entries().len() + self.popped@ == self.seen@.len()
    }

    /// An empty frontier with room for the entries of a merge that keeps
    /// `cluster_size` nodes.
    pub fn new(cluster_size: usize) -> (frontier: Frontier)
        requires
            3 * cluster_size <= max_capacity(),
        ensures
            frontier.entries() == Multiset::<Entry>::empty(),
            frontier.seen() == Set::<int>::empty(),
            frontier.popped() == 0,
            forall|pl: usize, pr: usize, is_sum: bool| !frontier.marked(pl, pr, is_sum),
    {
        Frontier {
            heap: heap_with_capacity(3 * cluster_size),
            added_sums: HashSet::with_capacity(3 * cluster_size),
            added_diffs: HashSet::with_capacity(2 * cluster_size),
            seen: Ghost(Set::empty()),
            popped: Ghost(0),
        }
    }

    /// Empties the heap and the record.
    pub fn clear(&mut self, Ghost(left): Ghost<Seq<TreeAttackNode>>, Ghost(right): Ghost<Seq<
        TreeAttackNode,
    >>)
        ensures
            final(self).ok(left, right),
            final(self).entries() == Multiset::<Entry>::empty(),
            final(self).seen() == Set::<int>::empty(),
            final(self).popped() == 0,
            forall|pl: usize, pr: usize, is_sum: bool| !final(self).marked(pl, pr, is_sum),
    {
        broadcast use vstd::multiset::group_multiset_axioms;

        heap_clear(&mut self.heap);
        self.added_sums.clear();
        self.added_diffs.clear();
        self.seen = Ghost(Set::empty());
        self.popped = Ghost(0);
        proof {
            assert(0 <= places(left, right)) by (nonlinear_arith)
                requires
                    places(left, right) == 2 * left.len() * right.len(),
                    left.len() >= 0,
                    right.len() >= 0,
            ;
        }
    }

    /// Puts the place on record, and tells whether it was not there before.
    pub fn mark(&mut self, pl: usize, pr: usize, is_sum: bool) -> (fresh: bool)
        ensures
            fresh == !old(self).marked(pl, pr, is_sum),
            final(self).marked(pl, pr, is_sum),
            forall|ql: usize, qr: usize, q_sum: bool|
                (ql != pl || qr != pr || q_sum != is_sum) ==> final(self).marked(ql, qr, q_sum)
                    == old(self).marked(ql, qr, q_sum),
            final(self).entries() == old(self).entries(),
            final(self).seen() == old(self).seen(),
            final(self).popped() == old(self).popped(),
            forall|left: Seq<TreeAttackNode>, right: Seq<TreeAttackNode>|
                old(self).ok(left, right) ==> final(self).ok(left, right),
    {
        broadcast use vstd::std_specs::hash::group_hash_axioms;

        let key: u128 = (pl as u128) * 0x1_0000_0000_0000_0000 + (pr as u128);
        assert(key == place_key(pl, pr));
        assert forall|ql: usize, qr: usize| (ql != pl || qr != pr) implies place_key(ql, qr)
            != place_key(pl, pr) by {}
        if is_sum {
            self.added_sums.insert(key)
        } else {
            self.added_diffs.insert(key)
        }
    }

    /// Adds an entry for a place that was not pushed before.
    pub fn push(
        &mut self,
        entry: Entry,
        Ghost(left): Ghost<Seq<TreeAttackNode>>,
        Ghost(right): Ghost<Seq<TreeAttackNode>>,
    )
        requires
            old(self).ok(left, right),
            entry_ok(left, right, entry),
            !old(self).seen().contains(
                place_code(right.len() as int, entry.1 as int, entry.2 as int, entry.3),
            ),
        ensures
            final(self).ok(left, right),
            final(self).entries() == old(self).entries().insert(entry),
            final(self).seen() == old(self).seen().insert(
                place_code(right.len() as int, entry.1 as int, entry.2 as int, entry.3),
            ),
            final(self).popped() == old(self).popped(),
            forall|pl: usize, pr: usize, is_sum: bool|
                final(self).marked(pl, pr, is_sum) == old(self).marked(pl, pr, is_sum),
    {
        broadcast use vstd::multiset::group_multiset_axioms;
        broadcast use vstd::set::group_set_axioms;

        heap_push(&mut self.heap, entry);
        proof {
            lemma_place_code(
                left.len() as int,
                right.len() as int,
                entry.1 as int,
                entry.2 as int,
                entry.3,
            );
            assert(old(self).entries().count(entry) == 0);
        }
        self.seen = Ghost(
            self.seen@.insert(
                place_code(right.len() as int, entry.1 as int, entry.2 as int, entry.3),
            ),
        );
    }

    /// Takes a least entry from the heap, if there is one.
    pub fn pop(
        &mut self,
        Ghost(left): Ghost<Seq<TreeAttackNode>>,
        Ghost(right): Ghost<Seq<TreeAttackNode>>,
    ) -> (popped: Option<Entry>)
        requires
            old(self).ok(left, right),
        ensures
            final(self).ok(left, right),
            final(self).seen() == old(self).seen(),
            forall|pl: usize, pr: usize, is_sum: bool|
                final(self).marked(pl, pr, is_sum) == old(self).marked(pl, pr, is_sum),
            match popped {
                Some(entry) => {
                    &&& entry_ok(left, right, entry)
                    &&& old(self).entries().count(entry) == 1
                    &&& final(self).entries().count(entry) == 0
                    &&& final(self).entries() == old(self).entries().remove(entry)
                    &&& forall|other: Entry| #[trigger]
                        old(self).entries().count(other) > 0 ==> entry_le(entry, other)
                    &&& final(self).popped() == old(self).popped() + 1
                    &&& final(self).popped() <= places(left, right)
                },
                None => {
                    &&& old(self).entries().len() == 0
                    &&& final(self).entries() == old(self).entries()
                    &&& final(self).popped() == old(self).popped()
                },
            },
    {
        broadcast use vstd::multiset::group_multiset_axioms;

        let popped = heap_pop(&mut self.heap);
        if popped.is_some() {
            proof {
                let entry = popped.unwrap();
                let before = old(self).entries();
                assert(Multiset::singleton(entry).subset_of(before)) by {
                    assert forall|v: Entry| Multiset::singleton(entry).count(v) <= before.count(
                        v,
                    ) by {
                        if v != entry {
                            assert(Multiset::singleton(entry).count(v) == 0);
                        }
                    }
                }
                lemma_int_range(0, places(left, right));
                lemma_len_subset(self.seen@, set_int_range(0, places(left, right)));
            }
            self.popped = Ghost((self.popped@ + 1) as nat);
        }
        popped
    }
}

} // verus!
