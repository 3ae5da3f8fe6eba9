//! The priority queue of the tree solver: a binary heap that hands out its
//! least entry first.

use binary_heap_plus::{BinaryHeap, MinComparator};
use vstd::multiset::Multiset;
use vstd::prelude::*;

verus! {

/// `binary_heap_plus::BinaryHeap`, a binary heap whose order is given by a
/// comparator. Nothing is known of a heap but what the functions below say.
#[verifier::external_type_specification]
#[verifier::external_body]
#[verifier::reject_recursive_types(T)]
#[verifier::reject_recursive_types(C)]
pub struct ExBinaryHeap<T, C>(BinaryHeap<T, C>);

/// `binary_heap_plus::MinComparator`, the comparator of a heap that hands out
/// its least item first.
#[verifier::external_type_specification]
#[verifier::external_body]
pub struct ExMinComparator(MinComparator);

/// What the heap holds: a value and the place it stands for, which is a
/// position in the left list, a position in the right list, and whether the
/// value is the sum (`true`) or the distance (`false`) of the two.
pub type Entry = (i128, usize, usize, bool);

/// The heap of the tree solver.
pub type MinHeap = BinaryHeap<Entry, MinComparator>;

/// The entries that a heap holds, each as often as it was pushed and not yet
/// popped.
pub uninterp spec fn heap_entries(heap: MinHeap) -> Multiset<Entry>;

/// The order of entries: by value, then by left position, then by right
/// position, and last `false` before `true`.
pub open spec fn entry_le(a: Entry, b: Entry) -> bool {
    a.0 < b.0 || (a.0 == b.0 && (a.1 < b.1 || (a.1 == b.1 && (a.2 < b.2 || (a.2 == b.2 && (!a.3
        || b.3))))))
}

/// The largest capacity that a heap may be created with: an entry takes 64
/// bytes at most.
pub open spec fn max_capacity() -> int {
    isize::MAX / 64
}

/// `BinaryHeap::with_capacity_min`: an empty min-heap. The call allocates room
/// for `capacity` entries at once and panics where that exceeds `isize::MAX`
/// bytes, so the capacity is bounded.
#[verifier::external_body]
pub(crate) fn heap_with_capacity(capacity: usize) -> (heap: MinHeap)
    requires
        capacity <= max_capacity(),
    ensures
        heap_entries(heap) == Multiset::<Entry>::empty(),
{
    BinaryHeap::with_capacity_min(capacity)
}

/// `BinaryHeap::clear`: drops every entry.
#[verifier::external_body]
pub(crate) fn heap_clear(heap: &mut MinHeap)
    ensures
        heap_entries(*final(heap)) == Multiset::<Entry>::empty(),
{
    heap.clear()
}

/// `BinaryHeap::push`: adds one occurrence of `entry`, and keeps the rest.
#[verifier::external_body]
pub(crate) fn heap_push(heap: &mut MinHeap, entry: Entry)
    ensures
        heap_entries(*final(heap)) == heap_entries(*old(heap)).insert(entry),
{
    heap.push(entry)
}

/// `BinaryHeap::pop` on a min-heap of tuples: `None` on an empty heap, which
/// stays as it is; else it removes one occurrence of an entry that is least
/// among those held, in the order of tuples, and returns it.
#[verifier::external_body]
pub(crate) fn heap_pop(heap: &mut MinHeap) -> (popped: Option<Entry>)
    ensures
        match popped {
            Some(entry) => {
                &&& heap_entries(*old(heap)).count(entry) > 0
                &&& heap_entries(*final(heap)) == heap_entries(*old(heap)).remove(entry)
                &&& forall|other: Entry|
                    heap_entries(*old(heap)).count(other) > 0 ==> entry_le(entry, other)
            },
            None => {
                &&& heap_entries(*old(heap)).len() == 0
                &&& heap_entries(*final(heap)) == heap_entries(*old(heap))
            },
        },
{
    heap.pop()
}

} // verus!
