//! One merge of the tournament: from two lists of nodes, each in strictly
//! growing order of its sums, the list of the nodes that combine one node of
//! each, by sum or by distance, least value first and no value twice.

use crate::frontier::{
    distance, entry_ok, lemma_place_code, place_code, place_value, places, Frontier,
};
use crate::min_heap::{entry_le, Entry};
use crate::lists::{has_sum, lemma_has_sum_push, strictly_sorted};
use crate::tournament::{lemma_merged, merged, sums};
use crate::tree_attack::TreeAttackNode;
use crate::tree_invariant::signed;
use vstd::multiset::Multiset;
use vstd::prelude::*;

verus! {

/// Every sum of the list lies between zero and `bound`.
pub open spec fn within(list: Seq<TreeAttackNode>, bound: int) -> bool {
    forall|k: int| 0 <= k < list.len() ==> 0 <= (#[trigger] list[k]).sum() <= bound
}

/// No sum of the list is negative.
pub open spec fn not_negative(list: Seq<TreeAttackNode>) -> bool {
    forall|k: int| 0 <= k < list.len() ==> 0 <= (#[trigger] list[k]).sum()
}

/// The largest sum of a list in growing order: that of its last node.
pub open spec fn top(list: Seq<TreeAttackNode>) -> int {
    list[list.len() - 1].sum()
}

/// The sums of the two lists can be added in 128 bits: none is negative, and
/// the two largest add up to no more than the largest number.
pub open spec fn addable(left: Seq<TreeAttackNode>, right: Seq<TreeAttackNode>) -> bool {
    &&& 0 < left.len() <= usize::MAX
    &&& 0 < right.len() <= usize::MAX
    &&& strictly_sorted(left)
    &&& strictly_sorted(right)
    &&& not_negative(left)
    &&& not_negative(right)
    &&& top(left) + top(right) <= i128::MAX
}

/// In a list in growing order no sum exceeds the last.
pub proof fn lemma_top(list: Seq<TreeAttackNode>, k: int)
    requires
        strictly_sorted(list),
        0 <= k < list.len(),
    ensures
        list[k].sum() <= top(list),
{
    if k < list.len() - 1 {
        assert(list[k].sum() < list[list.len() - 1].sum());
    }
}

/// Some node of `left` and some node of `right` have one sum.
pub open spec fn share_a_sum(left: Seq<TreeAttackNode>, right: Seq<TreeAttackNode>) -> bool {
    exists|pl: int, pr: int|
        0 <= pl < left.len() && 0 <= pr < right.len() && (#[trigger] left[pl]).sum() == (
        #[trigger] right[pr]).sum()
}

/// `node` is an internal node at tree position `idx` that combines a node of
/// `left` with a node of `right`: its sum is not negative and is the signed
/// sum of theirs. One of the two is reversed at most: the right one for a
/// distance, unless its sum is the larger, in which case the left one is.
pub open spec fn merged_ok(
    left: Seq<TreeAttackNode>,
    right: Seq<TreeAttackNode>,
    idx: usize,
    node: TreeAttackNode,
) -> bool {
    &&& node matches TreeAttackNode::Internal(n)
    &&& n.idx == idx
    &&& n.pos_left < left.len()
    &&& n.pos_right < right.len()
    &&& !(n.rev_left && n.rev_right)
    &&& n.rev_left ==> left[n.pos_left as int].sum() < right[n.pos_right as int].sum()
    &&& n.sum >= 0
    &&& n.sum as int == signed(n.rev_left, left[n.pos_left as int].sum()) + signed(
        n.rev_right,
        right[n.pos_right as int].sum(),
    )
}

/// The sum of the sums of two nodes.
pub fn calc_sum(
    left: &Vec<TreeAttackNode>,
    right: &Vec<TreeAttackNode>,
    pl: usize,
    pr: usize,
) -> (s: i128)
    requires
        addable(left@, right@),
        pl < left.len(),
        pr < right.len(),
    ensures
        s as int == place_value(left@, right@, pl as int, pr as int, true),
        0 <= s <= top(left@) + top(right@),
{
    proof {
        lemma_top(left@, pl as int);
        lemma_top(right@, pr as int);
    }
    left[pl].get_sum() + right[pr].get_sum()
}

/// The distance of the sums of two nodes.
pub fn calc_diff(
    left: &Vec<TreeAttackNode>,
    right: &Vec<TreeAttackNode>,
    pl: usize,
    pr: usize,
) -> (s: i128)
    requires
        addable(left@, right@),
        pl < left.len(),
        pr < right.len(),
    ensures
        s as int == place_value(left@, right@, pl as int, pr as int, false),
        0 <= s <= top(left@) + top(right@),
{
    proof {
        lemma_top(left@, pl as int);
        lemma_top(right@, pr as int);
    }
    let x = left[pl].get_sum();
    let y = right[pr].get_sum();
    if x >= y {
        x - y
    } else {
        y - x
    }
}

/// The place `(pl, seed)` is a least place of row `pl` of the distance
/// stream: the right nodes before it lie further from the left node, and
/// those after it lie no nearer.
pub open spec fn seed_ok(
    left: Seq<TreeAttackNode>,
    right: Seq<TreeAttackNode>,
    pl: int,
    seed: int,
) -> bool {
    &&& 0 <= seed < right.len()
    &&& seed == 0 || 2 * left[pl].sum() > right[seed - 1].sum() + right[seed].sum()
    &&& seed + 1 == right.len() || 2 * left[pl].sum() <= right[seed].sum() + right[seed + 1].sum()
}

/// Whatever was pushed is on record, but for the first place of the sum
/// stream, which is pushed without a record.
pub open spec fn linked(
    frontier: &Frontier,
    left: Seq<TreeAttackNode>,
    right: Seq<TreeAttackNode>,
) -> bool {
    forall|pl: usize, pr: usize, is_sum: bool|
        pl < left.len() && pr < right.len() && frontier.seen().contains(
            #[trigger] place_code(right.len() as int, pl as int, pr as int, is_sum),
        ) ==> frontier.marked(pl, pr, is_sum) || (is_sum && pl == 0 && pr == 0)
}

/// On the distance stream the record of each row reaches from its seed
/// outwards without a gap.
pub open spec fn rows_ok(
    frontier: &Frontier,
    left: Seq<TreeAttackNode>,
    right: Seq<TreeAttackNode>,
    seeds: Seq<int>,
) -> bool {
    forall|pl: usize, pr: usize|
        pl < left.len() && pr < right.len() && #[trigger] frontier.marked(pl, pr, false) ==> (pr
            > seeds[pl as int] ==> frontier.marked(pl, (pr - 1) as usize, false)) && (pr
            < seeds[pl as int] ==> frontier.marked(pl, (pr + 1) as usize, false))
}

/// The state of a merge between two pops. No entry that waits is below
/// `floor`, the value that was popped last.
#[verifier::opaque]
pub open spec fn search_ok(
    frontier: &Frontier,
    left: Seq<TreeAttackNode>,
    right: Seq<TreeAttackNode>,
    seeds: Seq<int>,
    floor: int,
) -> bool {
    &&& frontier.ok(left, right)
    &&& linked(frontier, left, right)
    &&& seeds.len() == left.len()
    &&& forall|pl: int| 0 <= pl < left.len() ==> seed_ok(left, right, pl, #[trigger] seeds[pl])
    &&& rows_ok(frontier, left, right, seeds)
    &&& forall|e: Entry| #[trigger]
        frontier.entries().count(e) > 0 ==> entry_ok(left, right, e) && e.0 >= floor && (!e.3
            ==> frontier.marked(e.1, e.2, false))
}

/// A place of a merge: a position in the left list, a position in the right
/// list, and whether it belongs to the sum stream.
pub type Place = (int, int, bool);

/// The place lies within the two lists.
pub open spec fn valid_place(
    left: Seq<TreeAttackNode>,
    right: Seq<TreeAttackNode>,
    place: Place,
) -> bool {
    0 <= place.0 < left.len() && 0 <= place.1 < right.len()
}

/// The entry that stands for a place.
pub open spec fn entry_of(
    left: Seq<TreeAttackNode>,
    right: Seq<TreeAttackNode>,
    place: Place,
) -> Entry {
    (
        place_value(left, right, place.0, place.1, place.2) as i128,
        place.0 as usize,
        place.1 as usize,
        place.2,
    )
}

/// The place that an entry stands for.
pub open spec fn place_of(entry: Entry) -> Place {
    (entry.1 as int, entry.2 as int, entry.3)
}

/// The place is on record, or is the first place of the sum stream.
pub open spec fn known(frontier: &Frontier, place: Place) -> bool {
    frontier.marked(place.0 as usize, place.1 as usize, place.2) || place == (0int, 0int, true)
}

/// What is known of the places that were handed out already, the set
/// `gone`. Their values do not exceed `floor`, and they wait no more. A
/// place on record waits or is gone. On the distance stream a place on
/// record that is not the seed of its row has its neighbour towards the
/// seed gone. And an entry of the sum stream that waits is on record.
#[verifier::opaque]
pub open spec fn tracking(
    frontier: &Frontier,
    left: Seq<TreeAttackNode>,
    right: Seq<TreeAttackNode>,
    seeds: Seq<int>,
    floor: int,
    gone: Set<Place>,
) -> bool {
    &&& forall|place: Place| #[trigger]
        gone.contains(place) ==> {
            &&& valid_place(left, right, place)
            &&& place_value(left, right, place.0, place.1, place.2) <= floor
            &&& frontier.entries().count(entry_of(left, right, place)) == 0
            &&& known(frontier, place)
        }
    &&& forall|pl: usize, pr: usize, is_sum: bool|
        pl < left.len() && pr < right.len() && #[trigger] frontier.marked(pl, pr, is_sum)
            ==> frontier.entries().count(entry_of(left, right, (pl as int, pr as int, is_sum)))
            > 0 || gone.contains((pl as int, pr as int, is_sum))
    &&& frontier.entries().count(entry_of(left, right, (0, 0, true))) > 0 || gone.contains(
        (0, 0, true),
    )
    &&& forall|pl: usize, pr: usize|
        pl < left.len() && pr < right.len() && #[trigger] frontier.marked(pl, pr, false) ==> (pr
            > seeds[pl as int] ==> gone.contains((pl as int, pr - 1, false))) && (pr
            < seeds[pl as int] ==> gone.contains((pl as int, pr + 1, false)))
    &&& forall|e: Entry| #[trigger]
        frontier.entries().count(e) > 0 && e.3 ==> known(frontier, place_of(e))
}

/// Adds the place to the frontier unless it is on record.
fn offer(
    frontier: &mut Frontier,
    left: &Vec<TreeAttackNode>,
    right: &Vec<TreeAttackNode>,
    pl: usize,
    pr: usize,
    is_sum: bool,
    Ghost(seeds): Ghost<Seq<int>>,
    Ghost(floor): Ghost<int>,
    Ghost(gone): Ghost<Set<Place>>,
)
    requires
        search_ok(old(frontier), left@, right@, seeds, floor),
        tracking(old(frontier), left@, right@, seeds, floor, gone),
        addable(left@, right@),
        pl < left.len(),
        pr < right.len(),
        is_sum ==> pl > 0 || pr > 0,
        !old(frontier).marked(pl, pr, is_sum) ==> {
            &&& place_value(left@, right@, pl as int, pr as int, is_sum) >= floor
            &&& !is_sum && pr > seeds[pl as int] ==> gone.contains((pl as int, pr - 1, false))
            &&& !is_sum && pr < seeds[pl as int] ==> gone.contains((pl as int, pr + 1, false))
        },
    ensures
        search_ok(final(frontier), left@, right@, seeds, floor),
        tracking(final(frontier), left@, right@, seeds, floor, gone),
        final(frontier).ok(left@, right@),
        final(frontier).popped() == old(frontier).popped(),
        final(frontier).marked(pl, pr, is_sum),
        forall|ql: usize, qr: usize, q_sum: bool|
            old(frontier).marked(ql, qr, q_sum) ==> final(frontier).marked(ql, qr, q_sum),
        forall|e: Entry|
            old(frontier).entries().count(e) > 0 ==> final(frontier).entries().count(e) > 0,
{
    broadcast use vstd::multiset::group_multiset_axioms;

    proof {
        reveal(tracking);
        reveal(search_ok);
    }
    let ghost before = *frontier;
    if frontier.mark(pl, pr, is_sum) {
        let ghost marked = *frontier;
        let s = if is_sum {
            calc_sum(left, right, pl, pr)
        } else {
            calc_diff(left, right, pl, pr)
        };
        proof {
            let code = place_code(right.len() as int, pl as int, pr as int, is_sum);
            assert(!before.seen().contains(code));
        }
        frontier.push((s, pl, pr, is_sum), Ghost(left@), Ghost(right@));
        proof {
            lemma_place_code(left.len() as int, right.len() as int, pl as int, pr as int, is_sum);
            assert(linked(frontier, left@, right@)) by {
                assert forall|ql: usize, qr: usize, q_sum: bool|
                    ql < left.len() && qr < right.len() && frontier.seen().contains(
                        #[trigger] place_code(right.len() as int, ql as int, qr as int, q_sum),
                    ) implies frontier.marked(ql, qr, q_sum) || (q_sum && ql == 0 && qr == 0) by {
                    let c = place_code(right.len() as int, ql as int, qr as int, q_sum);
                    if before.seen().contains(c) {
                        assert(before.marked(ql, qr, q_sum) || (q_sum && ql == 0 && qr == 0));
                    }
                }
            }
            assert(rows_ok(frontier, left@, right@, seeds)) by {
                assert forall|ql: usize, qr: usize|
                    ql < left.len() && qr < right.len() && #[trigger] frontier.marked(
                        ql,
                        qr,
                        false,
                    ) implies (qr > seeds[ql as int] ==> frontier.marked(
                    ql,
                    (qr - 1) as usize,
                    false,
                )) && (qr < seeds[ql as int] ==> frontier.marked(ql, (qr + 1) as usize, false)) by {
                    if before.marked(ql, qr, false) {
                    } else {
                        if qr > seeds[ql as int] {
                            assert(gone.contains((ql as int, qr - 1, false)));
                            assert(known(&before, (ql as int, qr - 1, false)));
                        }
                        if qr < seeds[ql as int] {
                            assert(gone.contains((ql as int, qr + 1, false)));
                            assert(known(&before, (ql as int, qr + 1, false)));
                        }
                    }
                }
            }
            let fresh = (pl as int, pr as int, is_sum);
            assert(!gone.contains(fresh)) by {
                if gone.contains(fresh) {
                    assert(known(&before, fresh));
                }
            }
            assert forall|place: Place| #[trigger] gone.contains(place) implies {
                &&& valid_place(left@, right@, place)
                &&& place_value(left@, right@, place.0, place.1, place.2) <= floor
                &&& frontier.entries().count(entry_of(left@, right@, place)) == 0
                &&& known(frontier, place)
            } by {
                assert(known(&before, place));
                assert(before.entries().count(entry_of(left@, right@, place)) == 0);
                assert(entry_of(left@, right@, place) != (s, pl, pr, is_sum));
            }
            assert forall|ql: usize, qr: usize, q_sum: bool|
                ql < left.len() && qr < right.len() && #[trigger] frontier.marked(
                    ql,
                    qr,
                    q_sum,
                ) implies frontier.entries().count(
                entry_of(left@, right@, (ql as int, qr as int, q_sum)),
            ) > 0 || gone.contains((ql as int, qr as int, q_sum)) by {
                if ql == pl && qr == pr && q_sum == is_sum {
                    assert(entry_of(left@, right@, fresh) == (s, pl, pr, is_sum));
                } else {
                    assert(before.marked(ql, qr, q_sum));
                }
            }
            assert forall|ql: usize, qr: usize|
                ql < left.len() && qr < right.len() && #[trigger] frontier.marked(
                    ql,
                    qr,
                    false,
                ) implies (qr > seeds[ql as int] ==> gone.contains((ql as int, qr - 1, false)))
                && (qr < seeds[ql as int] ==> gone.contains((ql as int, qr + 1, false))) by {
                if before.marked(ql, qr, false) {
                }
            }
            assert forall|e: Entry| #[trigger] frontier.entries().count(e) > 0 && e.3 implies known(
                frontier,
                place_of(e),
            ) by {
                if e != (s, pl, pr, is_sum) {
                    assert(before.entries().count(e) > 0);
                    assert(known(&before, place_of(e)));
                }
            }
        }
    }
}

/// `q` lies between `a` and `b`, the two included.
pub open spec fn between(a: int, q: int, b: int) -> bool {
    (a <= q && q <= b) || (b <= q && q <= a)
}

/// Some place of the sum stream that waits lies no further in either list
/// than the place `(pl, pr)`.
pub open spec fn sum_covered(
    entries: Multiset<Entry>,
    left: Seq<TreeAttackNode>,
    right: Seq<TreeAttackNode>,
    pl: int,
    pr: int,
) -> bool {
    exists|ql: int, qr: int|
        0 <= ql <= pl && 0 <= qr <= pr && #[trigger] entries.count(
            entry_of(left, right, (ql, qr, true)),
        ) > 0
}

/// Some place of row `pl` of the distance stream that waits lies between the
/// seed of the row and the place `(pl, pr)`.
pub open spec fn diff_covered(
    entries: Multiset<Entry>,
    left: Seq<TreeAttackNode>,
    right: Seq<TreeAttackNode>,
    seed: int,
    pl: int,
    pr: int,
) -> bool {
    exists|q: int|
        between(seed, q, pr) && #[trigger] entries.count(entry_of(left, right, (pl, q, false)))
            > 0
}

/// Every place is gone, or waits behind a place that waits and comes no
/// later than it.
#[verifier::opaque]
pub open spec fn covered(
    frontier: &Frontier,
    left: Seq<TreeAttackNode>,
    right: Seq<TreeAttackNode>,
    seeds: Seq<int>,
    gone: Set<Place>,
) -> bool {
    &&& forall|pl: int, pr: int|
        0 <= pl < left.len() && 0 <= pr < right.len() ==> gone.contains((pl, pr, true))
            || #[trigger] sum_covered(frontier.entries(), left, right, pl, pr)
    &&& forall|pl: int, pr: int|
        0 <= pl < left.len() && 0 <= pr < right.len() ==> gone.contains((pl, pr, false))
            || #[trigger] diff_covered(frontier.entries(), left, right, seeds[pl], pl, pr)
}

/// Every value of a place is a sum of `out`, or exceeds all sums of `out`,
/// which is full.
pub open spec fn complete(
    out: Seq<TreeAttackNode>,
    left: Seq<TreeAttackNode>,
    right: Seq<TreeAttackNode>,
    cluster_size: int,
) -> bool {
    forall|pl: int, pr: int, is_sum: bool|
        0 <= pl < left.len() && 0 <= pr < right.len() ==> has_sum(
            out,
            #[trigger] place_value(left, right, pl, pr, is_sum),
        ) || (out.len() == cluster_size && place_value(left, right, pl, pr, is_sum) > top(out))
}

/// Towards the seed of its row, the value of a place of the distance stream
/// does not grow.
proof fn lemma_inwards(
    left: Seq<TreeAttackNode>,
    right: Seq<TreeAttackNode>,
    pl: int,
    seed: int,
    q: int,
    pr: int,
)
    requires
        strictly_sorted(right),
        0 <= pl < left.len(),
        0 <= pr < right.len(),
        seed_ok(left, right, pl, seed),
        between(seed, q, pr),
    ensures
        place_value(left, right, pl, q, false) <= place_value(left, right, pl, pr, false),
{
    if seed <= q && q < pr {
        if q > seed {
            assert(right[seed].sum() < right[q].sum());
        }
        if seed + 1 < pr {
            assert(right[seed + 1].sum() < right[pr].sum());
        }
        if q < pr {
            assert(right[q].sum() < right[pr].sum());
        }
    }
    if pr < q && q <= seed {
        if q < seed {
            assert(right[q].sum() < right[seed].sum());
        }
        if pr < seed - 1 {
            assert(right[pr].sum() < right[seed - 1].sum());
        }
        assert(right[pr].sum() < right[q].sum());
    }
}

/// A place that is covered has a value no less than some entry that waits.
proof fn lemma_covered_value(
    frontier: &Frontier,
    left: Seq<TreeAttackNode>,
    right: Seq<TreeAttackNode>,
    seeds: Seq<int>,
    floor: int,
    gone: Set<Place>,
    place: Place,
) -> (before: Entry)
    requires
        addable(left, right),
        search_ok(frontier, left, right, seeds, floor),
        covered(frontier, left, right, seeds, gone),
        valid_place(left, right, place),
        !gone.contains(place),
    ensures
        frontier.entries().count(before) > 0,
        before.0 <= place_value(left, right, place.0, place.1, place.2),
        before.3 == place.2,
        place.2 ==> before.1 <= place.0 && before.2 <= place.1,
        !place.2 ==> before.1 == place.0 && between(seeds[place.0], before.2 as int, place.1),
{
    reveal(covered);
    reveal(search_ok);
    let (pl, pr, is_sum) = place;
    assert(place == (pl, pr, is_sum));
    if is_sum {
        assert(sum_covered(frontier.entries(), left, right, pl, pr));
        let (ql, qr) = choose|ql: int, qr: int|
            0 <= ql <= pl && 0 <= qr <= pr && #[trigger] frontier.entries().count(
                entry_of(left, right, (ql, qr, true)),
            ) > 0;
        if ql < pl {
            assert(left[ql].sum() < left[pl].sum());
        }
        if qr < pr {
            assert(right[qr].sum() < right[pr].sum());
        }
        let e = entry_of(left, right, (ql, qr, true));
        assert(entry_ok(left, right, e));
        e
    } else {
        assert(diff_covered(frontier.entries(), left, right, seeds[pl], pl, pr));
        let q = choose|q: int|
            between(seeds[pl], q, pr) && #[trigger] frontier.entries().count(
                entry_of(left, right, (pl, q, false)),
            ) > 0;
        assert(seed_ok(left, right, pl, seeds[pl]));
        lemma_inwards(left, right, pl, seeds[pl], q, pr);
        let e = entry_of(left, right, (pl, q, false));
        assert(entry_ok(left, right, e));
        e
    }
}

/// The entry of the seed of row `pl`.
pub open spec fn seed_entry(
    left: Seq<TreeAttackNode>,
    right: Seq<TreeAttackNode>,
    pl: int,
    seed: int,
) -> Entry {
    (place_value(left, right, pl, seed, false) as i128, pl as usize, seed as usize, false)
}

/// Starts a merge: empties the frontier, then adds, for each left node, the
/// place of the right node nearest to it on the distance stream, and last the
/// first place of the sum stream. The nearest right node is found by a
/// pointer that only moves forward from one left node to the next.
fn seed(frontier: &mut Frontier, left: &Vec<TreeAttackNode>, right: &Vec<TreeAttackNode>) -> (seeds:
    Ghost<Seq<int>>)
    requires
        addable(left@, right@),
    ensures
        search_ok(final(frontier), left@, right@, seeds@, 0),
        final(frontier).ok(left@, right@),
        seeds@.len() == left.len(),
        tracking(final(frontier), left@, right@, seeds@, 0, Set::<Place>::empty()),
        covered(final(frontier), left@, right@, seeds@, Set::<Place>::empty()),
        final(frontier).popped() == 0,
        final(frontier).entries().len() > 0,
        forall|pl: int|
            0 <= pl < left.len() ==> final(frontier).entries().count(
                #[trigger] seed_entry(left@, right@, pl, seeds@[pl]),
            ) > 0,
{
    broadcast use vstd::multiset::group_multiset_axioms;

    frontier.clear(Ghost(left@), Ghost(right@));
    let ghost mut seeds: Seq<int> = Seq::empty();
    let ghost width = right.len() as int;
    let mut pr: usize = 0;
    let mut pl: usize = 0;
    while pl < left.len()
        invariant
            addable(left@, right@),
            width == right.len(),
            pl <= left.len(),
            pr < right.len(),
            frontier.ok(left@, right@),
            frontier.popped() == 0,
            linked(frontier, left@, right@),
            seeds.len() == pl,
            forall|q: int| 0 <= q < pl ==> seed_ok(left@, right@, q, #[trigger] seeds[q]),
            forall|ql: usize, qr: usize, q_sum: bool| #[trigger]
                frontier.marked(ql, qr, q_sum) ==> !q_sum && ql < pl && qr == seeds[ql as int],
            forall|c: int| #[trigger]
                frontier.seen().contains(c) ==> c < 2 * pl * width && c % 2 == 0,
            forall|e: Entry| #[trigger]
                frontier.entries().count(e) > 0 ==> entry_ok(left@, right@, e) && e.0 >= 0
                    && !e.3 && frontier.marked(e.1, e.2, false),
            forall|q: int|
                0 <= q < pl ==> frontier.entries().count(
                    #[trigger] seed_entry(left@, right@, q, seeds[q]),
                ) > 0,
            pl == 0 ==> pr == 0,
            pl > 0 ==> pr == seeds[pl - 1],
        decreases left.len() - pl,
    {
        proof {
            if pl > 0 {
                assert(seed_ok(left@, right@, pl - 1, seeds[pl - 1]));
                assert(left@[pl - 1].sum() < left@[pl as int].sum());
            }
        }
        while pr + 1 < right.len() && calc_diff(left, right, pl, pr + 1) < calc_diff(
            left,
            right,
            pl,
            pr,
        )
            invariant
                addable(left@, right@),
                pl < left.len(),
                pr < right.len(),
                pr == 0 || 2 * left@[pl as int].sum() > right@[pr - 1].sum() + right@[pr as int].sum(),
            decreases right.len() - pr,
        {
            assert(right@[pr as int].sum() < right@[pr + 1].sum());
            pr = pr + 1;
        }
        proof {
            if pr + 1 < right.len() {
                assert(right@[pr as int].sum() < right@[pr + 1].sum());
            }
            assert(seed_ok(left@, right@, pl as int, pr as int));
        }
        let s = calc_diff(left, right, pl, pr);
        let ghost before = *frontier;
        let ghost code = place_code(width, pl as int, pr as int, false);
        proof {
            lemma_place_code(left.len() as int, width, pl as int, pr as int, false);
            assert(2 * pl * width == 2 * (pl * width)) by (nonlinear_arith);
            assert(!before.seen().contains(code));
        }
        frontier.push((s, pl, pr, false), Ghost(left@), Ghost(right@));
        frontier.mark(pl, pr, false);
        proof {
            let old_seeds = seeds;
            seeds = seeds.push(pr as int);
            assert(2 * (pl + 1) * width == 2 * (pl * width) + 2 * width) by (nonlinear_arith);
            assert(linked(frontier, left@, right@)) by {
                assert forall|ql: usize, qr: usize, q_sum: bool|
                    ql < left.len() && qr < right.len() && frontier.seen().contains(
                        #[trigger] place_code(width, ql as int, qr as int, q_sum),
                    ) implies frontier.marked(ql, qr, q_sum) || (q_sum && ql == 0 && qr == 0) by {
                    let c = place_code(width, ql as int, qr as int, q_sum);
                    if before.seen().contains(c) {
                        assert(before.marked(ql, qr, q_sum) || (q_sum && ql == 0 && qr == 0));
                    }
                }
            }
            assert forall|q: int| 0 <= q < pl + 1 implies frontier.entries().count(
                #[trigger] seed_entry(left@, right@, q, seeds[q]),
            ) > 0 by {
                if q < pl {
                    assert(seeds[q] == old_seeds[q]);
                    assert(before.entries().count(seed_entry(left@, right@, q, old_seeds[q])) > 0);
                }
            }
            assert forall|q: int| 0 <= q < pl + 1 implies seed_ok(
                left@,
                right@,
                q,
                #[trigger] seeds[q],
            ) by {
                if q < pl {
                    assert(seeds[q] == old_seeds[q]);
                }
            }
            assert forall|ql: usize, qr: usize, q_sum: bool| #[trigger]
                frontier.marked(ql, qr, q_sum) implies !q_sum && ql < pl + 1 && qr
                == seeds[ql as int] by {
                if ql != pl || qr != pr || q_sum {
                    assert(before.marked(ql, qr, q_sum));
                    assert(seeds[ql as int] == old_seeds[ql as int]);
                }
            }
        }
        pl = pl + 1;
    }
    let s = calc_sum(left, right, 0, 0);
    proof {
        lemma_place_code(left.len() as int, width, 0, 0, true);
        assert(!frontier.seen().contains(place_code(width, 0, 0, true)));
    }
    let ghost before = *frontier;
    frontier.push((s, 0, 0, true), Ghost(left@), Ghost(right@));
    proof {
        assert(linked(frontier, left@, right@)) by {
            assert forall|ql: usize, qr: usize, q_sum: bool|
                ql < left.len() && qr < right.len() && frontier.seen().contains(
                    #[trigger] place_code(width, ql as int, qr as int, q_sum),
                ) implies frontier.marked(ql, qr, q_sum) || (q_sum && ql == 0 && qr == 0) by {
                let c = place_code(width, ql as int, qr as int, q_sum);
                if before.seen().contains(c) {
                    assert(before.marked(ql, qr, q_sum) || (q_sum && ql == 0 && qr == 0));
                }
            }
        }
        assert forall|q: int| 0 <= q < left.len() implies frontier.entries().count(
            #[trigger] seed_entry(left@, right@, q, seeds[q]),
        ) > 0 by {
            assert(before.entries().count(seed_entry(left@, right@, q, seeds[q])) > 0);
        }
        assert(frontier.entries().count((s, 0usize, 0usize, true)) > 0);
        assert(entry_of(left@, right@, (0, 0, true)) == (s, 0usize, 0usize, true));
        reveal(tracking);
        reveal(covered);
        reveal(search_ok);
        let none = Set::<Place>::empty();
        assert forall|ql: usize, qr: usize, q_sum: bool|
            ql < left.len() && qr < right.len() && #[trigger] frontier.marked(
                ql,
                qr,
                q_sum,
            ) implies frontier.entries().count(
            entry_of(left@, right@, (ql as int, qr as int, q_sum)),
        ) > 0 || none.contains((ql as int, qr as int, q_sum)) by {
            assert(before.marked(ql, qr, q_sum));
            assert(frontier.entries().count(seed_entry(left@, right@, ql as int, seeds[ql as int]))
                > 0);
        }
        assert forall|e: Entry| #[trigger] frontier.entries().count(e) > 0 && e.3 implies known(
            frontier,
            place_of(e),
        ) by {
            if e != (s, 0usize, 0usize, true) {
                assert(before.entries().count(e) > 0);
            }
        }
        assert(tracking(frontier, left@, right@, seeds, 0, none));
        assert forall|ql: int, qr: int| 0 <= ql < left.len() && 0 <= qr < right.len() implies
            none.contains((ql, qr, true)) || #[trigger] sum_covered(
            frontier.entries(),
            left@,
            right@,
            ql,
            qr,
        ) by {
            assert(frontier.entries().count(entry_of(left@, right@, (0, 0, true))) > 0);
        }
        assert forall|ql: int, qr: int| 0 <= ql < left.len() && 0 <= qr < right.len() implies
            none.contains((ql, qr, false)) || #[trigger] diff_covered(
            frontier.entries(),
            left@,
            right@,
            seeds[ql],
            ql,
            qr,
        ) by {
            assert(seed_ok(left@, right@, ql, seeds[ql]));
            assert(frontier.entries().count(seed_entry(left@, right@, ql, seeds[ql])) > 0);
            assert(seed_entry(left@, right@, ql, seeds[ql]) == entry_of(
                left@,
                right@,
                (ql, seeds[ql], false),
            ));
            assert(between(seeds[ql], seeds[ql], qr));
        }
    }
    Ghost(seeds)
}

/// The seed of a row is a least place of the row.
proof fn lemma_seed_is_least(
    left: Seq<TreeAttackNode>,
    right: Seq<TreeAttackNode>,
    pl: int,
    seed: int,
    pr: int,
)
    requires
        strictly_sorted(right),
        0 <= pl < left.len(),
        0 <= pr < right.len(),
        seed_ok(left, right, pl, seed),
    ensures
        place_value(left, right, pl, seed, false) <= place_value(left, right, pl, pr, false),
{
    if pr < seed {
        if pr < seed - 1 {
            assert(right[pr].sum() < right[seed - 1].sum());
        }
    } else if pr > seed {
        if pr > seed + 1 {
            assert(right[seed + 1].sum() < right[pr].sum());
        }
    }
}

/// Away from the seed of its row, the value of a place of the distance
/// stream does not fall.
proof fn lemma_outwards(
    left: Seq<TreeAttackNode>,
    right: Seq<TreeAttackNode>,
    pl: int,
    seed: int,
    pr: int,
)
    requires
        strictly_sorted(right),
        0 <= pl < left.len(),
        0 <= pr < right.len(),
        seed_ok(left, right, pl, seed),
    ensures
        0 < pr <= seed ==> place_value(left, right, pl, pr - 1, false) >= place_value(
            left,
            right,
            pl,
            pr,
            false,
        ),
        seed <= pr < right.len() - 1 ==> place_value(left, right, pl, pr + 1, false)
            >= place_value(left, right, pl, pr, false),
{
    if 0 < pr <= seed {
        if pr < seed {
            assert(right[pr].sum() < right[seed].sum());
            assert(right[pr - 1].sum() < right[seed - 1].sum());
        }
    }
    if seed <= pr < right.len() - 1 {
        if pr > seed {
            assert(right[seed].sum() < right[pr].sum());
            assert(right[seed + 1].sum() < right[pr + 1].sum());
        }
    }
}

/// Taking the least entry from the heap keeps what is known of the places
/// that are gone, once its place is counted among them and the floor is
/// raised to its value.
proof fn lemma_track_pop(
    before: &Frontier,
    after: &Frontier,
    left: Seq<TreeAttackNode>,
    right: Seq<TreeAttackNode>,
    seeds: Seq<int>,
    floor: int,
    gone: Set<Place>,
    entry: Entry,
)
    requires
        search_ok(before, left, right, seeds, floor),
        tracking(before, left, right, seeds, floor, gone),
        before.entries().count(entry) == 1,
        after.entries() == before.entries().remove(entry),
        after.entries().count(entry) == 0,
        forall|pl: usize, pr: usize, is_sum: bool|
            after.marked(pl, pr, is_sum) == before.marked(pl, pr, is_sum),
    ensures
        tracking(after, left, right, seeds, entry.0 as int, gone.insert(place_of(entry))),
{
    broadcast use vstd::multiset::group_multiset_axioms;

    reveal(tracking);
    reveal(search_ok);
    let more = gone.insert(place_of(entry));
    assert(entry_ok(left, right, entry));
    assert(entry_of(left, right, place_of(entry)) == entry);
    assert forall|place: Place| #[trigger] more.contains(place) implies {
        &&& valid_place(left, right, place)
        &&& place_value(left, right, place.0, place.1, place.2) <= entry.0
        &&& after.entries().count(entry_of(left, right, place)) == 0
        &&& known(after, place)
    } by {
        if gone.contains(place) {
            assert(known(before, place));
        } else {
            assert(place == place_of(entry));
            if entry.3 {
                assert(known(before, place_of(entry)));
            } else {
                assert(before.marked(entry.1, entry.2, false));
            }
        }
    }
    assert forall|pl: usize, pr: usize, is_sum: bool|
        pl < left.len() && pr < right.len() && #[trigger] after.marked(
            pl,
            pr,
            is_sum,
        ) implies after.entries().count(entry_of(left, right, (pl as int, pr as int, is_sum))) > 0
        || more.contains((pl as int, pr as int, is_sum)) by {
        assert(before.marked(pl, pr, is_sum));
        let e = entry_of(left, right, (pl as int, pr as int, is_sum));
        if e == entry {
            assert(place_of(entry) == (pl as int, pr as int, is_sum));
        }
    }
    assert forall|pl: usize, pr: usize|
        pl < left.len() && pr < right.len() && #[trigger] after.marked(pl, pr, false) implies (pr
        > seeds[pl as int] ==> more.contains((pl as int, pr - 1, false))) && (pr
        < seeds[pl as int] ==> more.contains((pl as int, pr + 1, false))) by {
        assert(before.marked(pl, pr, false));
    }
    assert forall|e: Entry| #[trigger] after.entries().count(e) > 0 && e.3 implies known(
        after,
        place_of(e),
    ) by {
        assert(before.entries().count(e) > 0);
        assert(known(before, place_of(e)));
    }
    let first = entry_of(left, right, (0, 0, true));
    if first == entry {
        assert(place_of(entry) == (0int, 0int, true));
    }
}

/// What `lemma_cover_step` starts from: the state before an entry was taken
/// from the heap, and the state after the places next to its place were
/// offered.
pub open spec fn stepped(
    before: &Frontier,
    after: &Frontier,
    left: Seq<TreeAttackNode>,
    right: Seq<TreeAttackNode>,
    seeds: Seq<int>,
    floor: int,
    gone: Set<Place>,
    entry: Entry,
) -> bool {
    &&& addable(left, right)
    &&& search_ok(before, left, right, seeds, floor)
    &&& tracking(before, left, right, seeds, floor, gone)
    &&& covered(before, left, right, seeds, gone)
    &&& before.entries().count(entry) == 1
    &&& search_ok(after, left, right, seeds, entry.0 as int)
    &&& tracking(after, left, right, seeds, entry.0 as int, gone.insert(place_of(entry)))
    &&& forall|e: Entry|
        e != entry && #[trigger] before.entries().count(e) > 0 ==> after.entries().count(e) > 0
    &&& entry.3 && entry.1 + 1 < left.len() ==> after.marked((entry.1 + 1) as usize, entry.2, true)
    &&& entry.3 && entry.2 + 1 < right.len() ==> after.marked(
        entry.1,
        (entry.2 + 1) as usize,
        true,
    )
    &&& !entry.3 && entry.2 > 0 ==> after.marked(entry.1, (entry.2 - 1) as usize, false)
    &&& !entry.3 && entry.2 + 1 < right.len() ==> after.marked(
        entry.1,
        (entry.2 + 1) as usize,
        false,
    )
}

/// After a step, a place of the sum stream is gone or covered.
proof fn lemma_cover_sum(
    before: &Frontier,
    after: &Frontier,
    left: Seq<TreeAttackNode>,
    right: Seq<TreeAttackNode>,
    seeds: Seq<int>,
    floor: int,
    gone: Set<Place>,
    entry: Entry,
    pl: int,
    pr: int,
)
    requires
        stepped(before, after, left, right, seeds, floor, gone, entry),
        0 <= pl < left.len(),
        0 <= pr < right.len(),
    ensures
        gone.insert(place_of(entry)).contains((pl, pr, true)) || sum_covered(
            after.entries(),
            left,
            right,
            pl,
            pr,
        ),
{
    reveal(tracking);
    reveal(covered);
    reveal(search_ok);
    let more = gone.insert(place_of(entry));
    let el = entry.1 as int;
    let er = entry.2 as int;
    assert(entry_ok(left, right, entry));
    if !more.contains((pl, pr, true)) {
        assert(sum_covered(before.entries(), left, right, pl, pr));
        let (ql, qr) = choose|ql: int, qr: int|
            0 <= ql <= pl && 0 <= qr <= pr && #[trigger] before.entries().count(
                entry_of(left, right, (ql, qr, true)),
            ) > 0;
        let witness = entry_of(left, right, (ql, qr, true));
        if witness == entry {
            assert(ql == el && qr == er && entry.3);
            // the place follows the one that was handed out, in one list or the other
            let (nl, nr) = if pl > el {
                (el + 1, er)
            } else {
                (el, er + 1)
            };
            let next = (nl, nr, true);
            assert(after.marked(nl as usize, nr as usize, true));
            if more.contains(next) {
                assert(gone.contains(next));
                if pl > el {
                    assert(left[el].sum() < left[el + 1].sum());
                } else {
                    assert(right[er].sum() < right[er + 1].sum());
                }
            }
            assert(after.entries().count(entry_of(left, right, next)) > 0);
        } else {
            assert(after.entries().count(witness) > 0);
        }
    }
}

/// After a step, a place of the distance stream is gone or covered.
proof fn lemma_cover_diff(
    before: &Frontier,
    after: &Frontier,
    left: Seq<TreeAttackNode>,
    right: Seq<TreeAttackNode>,
    seeds: Seq<int>,
    floor: int,
    gone: Set<Place>,
    entry: Entry,
    pl: int,
    pr: int,
)
    requires
        stepped(before, after, left, right, seeds, floor, gone, entry),
        0 <= pl < left.len(),
        0 <= pr < right.len(),
    ensures
        gone.insert(place_of(entry)).contains((pl, pr, false)) || diff_covered(
            after.entries(),
            left,
            right,
            seeds[pl],
            pl,
            pr,
        ),
{
    reveal(tracking);
    reveal(covered);
    reveal(search_ok);
    let more = gone.insert(place_of(entry));
    let el = entry.1 as int;
    let er = entry.2 as int;
    assert(entry_ok(left, right, entry));
    assert(entry_of(left, right, place_of(entry)) == entry);
    if !more.contains((pl, pr, false)) {
        assert(diff_covered(before.entries(), left, right, seeds[pl], pl, pr));
        let q = choose|q: int|
            between(seeds[pl], q, pr) && #[trigger] before.entries().count(
                entry_of(left, right, (pl, q, false)),
            ) > 0;
        let witness = entry_of(left, right, (pl, q, false));
        assert(entry_ok(left, right, witness));
        if witness == entry {
            assert(pl == el && q == er && !entry.3);
            let nr = if pr > er {
                er + 1
            } else {
                er - 1
            };
            let next = (el, nr, false);
            assert(between(seeds[pl], nr, pr));
            assert(after.marked(el as usize, nr as usize, false));
            if more.contains(next) {
                // the place next to it was on record before, so that the place itself was gone
                assert(gone.contains(next));
                assert(known(before, next));
                assert(before.marked(el as usize, nr as usize, false));
                assert(gone.contains(place_of(entry)));
                assert(before.entries().count(entry_of(left, right, place_of(entry))) == 0);
            }
            assert(after.entries().count(entry_of(left, right, next)) > 0);
        } else {
            assert(after.entries().count(witness) > 0);
        }
    }
}

/// Once the places next to the place that was handed out are on record,
/// every place is covered again.
proof fn lemma_cover_step(
    before: &Frontier,
    after: &Frontier,
    left: Seq<TreeAttackNode>,
    right: Seq<TreeAttackNode>,
    seeds: Seq<int>,
    floor: int,
    gone: Set<Place>,
    entry: Entry,
)
    requires
        stepped(before, after, left, right, seeds, floor, gone, entry),
    ensures
        covered(after, left, right, seeds, gone.insert(place_of(entry))),
{
    let more = gone.insert(place_of(entry));
    assert forall|pl: int, pr: int| 0 <= pl < left.len() && 0 <= pr < right.len() implies
        more.contains((pl, pr, true)) || #[trigger] sum_covered(
        after.entries(),
        left,
        right,
        pl,
        pr,
    ) by {
        lemma_cover_sum(before, after, left, right, seeds, floor, gone, entry, pl, pr);
    }
    assert forall|pl: int, pr: int| 0 <= pl < left.len() && 0 <= pr < right.len() implies
        more.contains((pl, pr, false)) || #[trigger] diff_covered(
        after.entries(),
        left,
        right,
        seeds[pl],
        pl,
        pr,
    ) by {
        lemma_cover_diff(before, after, left, right, seeds, floor, gone, entry, pl, pr);
    }
    reveal(covered);
}

/// What is needed to offer the place next to a place of the distance stream
/// that was just handed out: unless it is on record, its value is no less,
/// and its neighbour towards the seed of the row is gone.
proof fn lemma_next_in_row(
    frontier: &Frontier,
    left: Seq<TreeAttackNode>,
    right: Seq<TreeAttackNode>,
    seeds: Seq<int>,
    floor: int,
    gone: Set<Place>,
    pl: usize,
    pr: usize,
    next: usize,
)
    requires
        addable(left, right),
        search_ok(frontier, left, right, seeds, floor),
        tracking(frontier, left, right, seeds, floor, gone),
        pl < left.len(),
        pr < right.len(),
        next < right.len(),
        next == pr + 1 || next == pr - 1,
        frontier.marked(pl, pr, false),
        gone.contains((pl as int, pr as int, false)),
    ensures
        !frontier.marked(pl, next, false) ==> {
            &&& place_value(left, right, pl as int, next as int, false) >= place_value(
                left,
                right,
                pl as int,
                pr as int,
                false,
            )
            &&& next > seeds[pl as int] ==> gone.contains((pl as int, next - 1, false))
            &&& next < seeds[pl as int] ==> gone.contains((pl as int, next + 1, false))
        },
{
    reveal(tracking);
    reveal(search_ok);
    let seed = seeds[pl as int];
    assert(seed_ok(left, right, pl as int, seed));
    lemma_outwards(left, right, pl as int, seed, pr as int);
    if !frontier.marked(pl, next, false) {
        if next == pr + 1 && next < seed {
            assert(gone.contains((pl as int, pr + 1, false)));
            assert(known(frontier, (pl as int, pr + 1, false)));
        }
        if next == pr - 1 && next > seed {
            assert(gone.contains((pl as int, pr - 1, false)));
            assert(known(frontier, (pl as int, pr - 1, false)));
        }
    }
}

/// A list that is full holds every value of a place up to its last sum.
proof fn lemma_complete_full(
    frontier: &Frontier,
    left: Seq<TreeAttackNode>,
    right: Seq<TreeAttackNode>,
    seeds: Seq<int>,
    gone: Set<Place>,
    out: Seq<TreeAttackNode>,
)
    requires
        addable(left, right),
        out.len() > 0,
        search_ok(frontier, left, right, seeds, top(out)),
        covered(frontier, left, right, seeds, gone),
        forall|place: Place| #[trigger]
            gone.contains(place) ==> has_sum(
                out,
                place_value(left, right, place.0, place.1, place.2),
            ),
    ensures
        complete(out, left, right, out.len() as int),
{
    assert forall|pl: int, pr: int, is_sum: bool|
        0 <= pl < left.len() && 0 <= pr < right.len() implies has_sum(
        out,
        #[trigger] place_value(left, right, pl, pr, is_sum),
    ) || place_value(left, right, pl, pr, is_sum) > top(out) by {
        let place = (pl, pr, is_sum);
        if gone.contains(place) {
        } else {
            let e = lemma_covered_value(frontier, left, right, seeds, top(out), gone, place);
            assert(e.0 >= top(out)) by {
                reveal(search_ok);
            }
            if place_value(left, right, pl, pr, is_sum) == top(out) {
                assert(out[out.len() - 1].sum() == top(out));
            }
        }
    }
}

/// Once no place waits, a list holds every value of a place.
proof fn lemma_complete_empty(
    frontier: &Frontier,
    left: Seq<TreeAttackNode>,
    right: Seq<TreeAttackNode>,
    seeds: Seq<int>,
    floor: int,
    gone: Set<Place>,
    out: Seq<TreeAttackNode>,
    cluster_size: int,
)
    requires
        addable(left, right),
        search_ok(frontier, left, right, seeds, floor),
        covered(frontier, left, right, seeds, gone),
        frontier.entries().len() == 0,
        forall|place: Place| #[trigger]
            gone.contains(place) ==> has_sum(
                out,
                place_value(left, right, place.0, place.1, place.2),
            ),
    ensures
        complete(out, left, right, cluster_size),
{
    broadcast use vstd::multiset::group_multiset_axioms;

    assert forall|pl: int, pr: int, is_sum: bool|
        0 <= pl < left.len() && 0 <= pr < right.len() implies has_sum(
        out,
        #[trigger] place_value(left, right, pl, pr, is_sum),
    ) by {
        let place = (pl, pr, is_sum);
        if !gone.contains(place) {
            let e = lemma_covered_value(frontier, left, right, seeds, floor, gone, place);
            assert(frontier.entries().count(e) <= frontier.entries().len());
        }
    }
}

/// What holds once the least entry is taken from the heap: its value is the
/// new floor, and its place is gone.
proof fn lemma_after_pop(
    before: &Frontier,
    after: &Frontier,
    left: Seq<TreeAttackNode>,
    right: Seq<TreeAttackNode>,
    seeds: Seq<int>,
    floor: int,
    gone: Set<Place>,
    entry: Entry,
)
    requires
        search_ok(before, left, right, seeds, floor),
        tracking(before, left, right, seeds, floor, gone),
        after.ok(left, right),
        after.seen() == before.seen(),
        before.entries().count(entry) == 1,
        after.entries() == before.entries().remove(entry),
        after.entries().count(entry) == 0,
        forall|pl: usize, pr: usize, is_sum: bool|
            after.marked(pl, pr, is_sum) == before.marked(pl, pr, is_sum),
        forall|other: Entry| #[trigger]
            before.entries().count(other) > 0 ==> entry_le(entry, other),
    ensures
        entry.0 >= floor,
        entry_ok(left, right, entry),
        search_ok(after, left, right, seeds, entry.0 as int),
        tracking(after, left, right, seeds, entry.0 as int, gone.insert(place_of(entry))),
        !entry.3 ==> after.marked(entry.1, entry.2, false),
        entry.3 ==> entry.1 > 0 || entry.2 > 0 || !after.marked(0, 0, true) || true,
        forall|e: Entry|
            e != entry && #[trigger] before.entries().count(e) > 0 ==> after.entries().count(e)
                > 0,
{
    broadcast use vstd::multiset::group_multiset_axioms;

    lemma_track_pop(before, after, left, right, seeds, floor, gone, entry);
    reveal(search_ok);
    assert forall|e: Entry| #[trigger] after.entries().count(e) > 0 implies entry_ok(
        left,
        right,
        e,
    ) && e.0 >= entry.0 && (!e.3 ==> after.marked(e.1, e.2, false)) by {
        assert(before.entries().count(e) > 0);
        assert(entry_le(entry, e));
    }
    assert(linked(after, left, right));
    assert(rows_ok(after, left, right, seeds)) by {
        assert forall|ql: usize, qr: usize|
            ql < left.len() && qr < right.len() && #[trigger] after.marked(ql, qr, false) implies (
        qr > seeds[ql as int] ==> after.marked(ql, (qr - 1) as usize, false)) && (qr
            < seeds[ql as int] ==> after.marked(ql, (qr + 1) as usize, false)) by {
            assert(before.marked(ql, qr, false));
        }
    }
}

/// Where the least of all entries is not zero, the two lists share no sum.
proof fn lemma_least_is_least(
    frontier: &Frontier,
    left: Seq<TreeAttackNode>,
    right: Seq<TreeAttackNode>,
    seeds: Seq<int>,
    entry: Entry,
)
    requires
        addable(left, right),
        search_ok(frontier, left, right, seeds, 0),
        forall|pl: int|
            0 <= pl < left.len() ==> frontier.entries().count(
                #[trigger] seed_entry(left, right, pl, seeds[pl]),
            ) > 0,
        forall|other: Entry| #[trigger]
            frontier.entries().count(other) > 0 ==> entry_le(entry, other),
        entry.0 != 0,
        entry.0 >= 0,
    ensures
        !share_a_sum(left, right),
{
    reveal(search_ok);
    assert forall|ql: int, qr: int| 0 <= ql < left.len() && 0 <= qr < right.len() implies (
    #[trigger] left[ql]).sum() != (#[trigger] right[qr]).sum() by {
        lemma_seed_is_least(left, right, ql, seeds[ql], qr);
        let first = seed_entry(left, right, ql, seeds[ql]);
        assert(frontier.entries().count(first) > 0);
        assert(entry_le(entry, first));
    }
}

/// Where the least entry of a fresh frontier has the value zero, it names
/// a place of the distance stream: the seed of its row has the value zero
/// too, and comes before the place of the sum stream.
proof fn lemma_zero_is_distance(
    frontier: &Frontier,
    left: Seq<TreeAttackNode>,
    right: Seq<TreeAttackNode>,
    seeds: Seq<int>,
    entry: Entry,
)
    requires
        addable(left, right),
        search_ok(frontier, left, right, seeds, 0),
        forall|pl: int|
            0 <= pl < left.len() ==> frontier.entries().count(
                #[trigger] seed_entry(left, right, pl, seeds[pl]),
            ) > 0,
        entry_ok(left, right, entry),
        forall|other: Entry| #[trigger]
            frontier.entries().count(other) > 0 ==> entry_le(entry, other),
        entry.0 == 0,
    ensures
        !entry.3,
{
    reveal(search_ok);
    if entry.3 {
        let pl = entry.1 as int;
        let pr = entry.2 as int;
        let seed = seeds[pl];
        assert(seed_ok(left, right, pl, seed));
        assert(0 <= left[pl].sum() && 0 <= right[pr].sum());
        lemma_seed_is_least(left, right, pl, seed, pr);
        let first = seed_entry(left, right, pl, seed);
        assert(frontier.entries().count(first) > 0);
        assert(entry_le(entry, first));
        assert(0 <= right[seed].sum());
        assert(first.0 == 0);
        assert(right[seed].sum() == 0);
        assert(pr < seed);
    }
}

/// A frontier with the same entries and the same record is in the same
/// state.
proof fn lemma_same_state(
    before: &Frontier,
    after: &Frontier,
    left: Seq<TreeAttackNode>,
    right: Seq<TreeAttackNode>,
    seeds: Seq<int>,
    floor: int,
    gone: Set<Place>,
)
    requires
        search_ok(before, left, right, seeds, floor),
        tracking(before, left, right, seeds, floor, gone),
        covered(before, left, right, seeds, gone),
        after.ok(left, right),
        after.seen() == before.seen(),
        after.entries() == before.entries(),
        forall|pl: usize, pr: usize, is_sum: bool|
            after.marked(pl, pr, is_sum) == before.marked(pl, pr, is_sum),
    ensures
        search_ok(after, left, right, seeds, floor),
        tracking(after, left, right, seeds, floor, gone),
        covered(after, left, right, seeds, gone),
{
    reveal(search_ok);
    reveal(tracking);
    reveal(covered);
    assert(rows_ok(after, left, right, seeds)) by {
        assert forall|ql: usize, qr: usize|
            ql < left.len() && qr < right.len() && #[trigger] after.marked(ql, qr, false) implies (
        qr > seeds[ql as int] ==> after.marked(ql, (qr - 1) as usize, false)) && (qr
            < seeds[ql as int] ==> after.marked(ql, (qr + 1) as usize, false)) by {
            assert(before.marked(ql, qr, false));
        }
    }
    assert forall|place: Place| #[trigger] gone.contains(place) implies known(after, place) by {
        assert(known(before, place));
    }
    assert forall|e: Entry| #[trigger] after.entries().count(e) > 0 && e.3 implies known(
        after,
        place_of(e),
    ) by {
        assert(known(before, place_of(e)));
    }
    assert forall|pl: usize, pr: usize, is_sum: bool|
        pl < left.len() && pr < right.len() && #[trigger] after.marked(
            pl,
            pr,
            is_sum,
        ) implies after.entries().count(entry_of(left, right, (pl as int, pr as int, is_sum))) > 0
        || gone.contains((pl as int, pr as int, is_sum)) by {
        assert(before.marked(pl, pr, is_sum));
    }
    assert forall|pl: usize, pr: usize|
        pl < left.len() && pr < right.len() && #[trigger] after.marked(pl, pr, false) implies (pr
        > seeds[pl as int] ==> gone.contains((pl as int, pr - 1, false))) && (pr
        < seeds[pl as int] ==> gone.contains((pl as int, pr + 1, false))) by {
        assert(before.marked(pl, pr, false));
    }
}

/// One node more at the end of a list in growing order, with a larger sum,
/// leaves the list in growing order.
proof fn lemma_sorted_push(list: Seq<TreeAttackNode>, node: TreeAttackNode)
    requires
        strictly_sorted(list),
        list.len() > 0 ==> top(list) < node.sum(),
    ensures
        strictly_sorted(list.push(node)),
{
    let longer = list.push(node);
    assert forall|a: int, c: int| 0 <= a < c < longer.len() implies longer[a].sum()
        < longer[c].sum() by {
        if c == longer.len() - 1 {
            if a < list.len() - 1 {
                assert(list[a].sum() < list[list.len() - 1].sum());
            }
        } else {
            assert(list[a].sum() < list[c].sum());
        }
    }
}

/// The sums of the places that are gone are sums of the list, once the value
/// of the place that went last is one.
proof fn lemma_gone_in_list(
    left: Seq<TreeAttackNode>,
    right: Seq<TreeAttackNode>,
    gone: Set<Place>,
    entry: Entry,
    before: Seq<TreeAttackNode>,
    after: Seq<TreeAttackNode>,
)
    requires
        entry_ok(left, right, entry),
        forall|place: Place| #[trigger]
            gone.contains(place) ==> has_sum(
                before,
                place_value(left, right, place.0, place.1, place.2),
            ),
        after == before || (after.len() == before.len() + 1 && after.drop_last() == before),
        after.len() > 0,
        top(after) == entry.0,
    ensures
        forall|place: Place| #[trigger]
            gone.insert(place_of(entry)).contains(place) ==> has_sum(
                after,
                place_value(left, right, place.0, place.1, place.2),
            ),
{
    assert forall|place: Place| #[trigger]
        gone.insert(place_of(entry)).contains(place) implies has_sum(
        after,
        place_value(left, right, place.0, place.1, place.2),
    ) by {
        let value = place_value(left, right, place.0, place.1, place.2);
        if gone.contains(place) {
            if after != before {
                assert(after =~= before.push(after[after.len() - 1]));
                lemma_has_sum_push(before, after[after.len() - 1], value);
            }
        } else {
            assert(place == place_of(entry));
            assert(after[after.len() - 1].sum() == value);
        }
    }
}

/// Merges two lists into the list for tree position `idx`. The places of the
/// two streams are handed out in the order of their values; each new value
/// makes a node, until `cluster_size` nodes are made or no place is left. A
/// value of zero ends the merge at once, and can only be the first.
pub fn merge(
    left: &Vec<TreeAttackNode>,
    right: &Vec<TreeAttackNode>,
    idx: usize,
    cluster_size: usize,
    frontier: &mut Frontier,
) -> (res: (Vec<TreeAttackNode>, bool))
    requires
        addable(left@, right@),
        cluster_size >= 1,
    ensures
        1 <= res.0.len() <= cluster_size,
        strictly_sorted(res.0@),
        within(res.0@, top(left@) + top(right@)),
        forall|k: int|
            0 <= k < res.0.len() ==> merged_ok(left@, right@, idx, #[trigger] res.0[k]),
        res.1 == share_a_sum(left@, right@),
        res.1 ==> res.0.len() == 1 && res.0[0].sum() == 0,
        res.1 ==> (res.0[0] matches TreeAttackNode::Internal(n) && !n.rev_left && n.rev_right),
        !res.1 ==> complete(res.0@, left@, right@, cluster_size as int),
        !res.1 ==> sums(res.0@) == merged(sums(left@), sums(right@), cluster_size as nat),
{
    broadcast use vstd::multiset::group_multiset_axioms;

    let Ghost(seeds) = seed(frontier, left, right);
    let mut out: Vec<TreeAttackNode> = Vec::new();
    let mut last_sum: i128 = -1;
    let ghost mut floor: int = 0;
    let ghost mut gone: Set<Place> = Set::empty();
    while out.len() < cluster_size
        invariant
            addable(left@, right@),
            cluster_size >= 1,
            search_ok(frontier, left@, right@, seeds, floor),
            tracking(frontier, left@, right@, seeds, floor, gone),
            covered(frontier, left@, right@, seeds, gone),
            frontier.ok(left@, right@),
            frontier.popped() <= places(left@, right@),
            out.len() <= cluster_size,
            strictly_sorted(out@),
            within(out@, top(left@) + top(right@)),
            forall|k: int| 0 <= k < out.len() ==> merged_ok(left@, right@, idx, #[trigger] out[k]),
            forall|place: Place| #[trigger]
                gone.contains(place) ==> has_sum(
                    out@,
                    place_value(left@, right@, place.0, place.1, place.2),
                ),
            out.len() == cluster_size ==> complete(out@, left@, right@, cluster_size as int),
            out.len() == 0 ==> last_sum == -1 && floor == 0 && frontier.entries().len() > 0
                && forall|pl: int|
                0 <= pl < left.len() ==> frontier.entries().count(
                    #[trigger] seed_entry(left@, right@, pl, seeds[pl]),
                ) > 0,
            out.len() > 0 ==> last_sum == top(out@) && 0 < last_sum == floor && !share_a_sum(
                left@,
                right@,
            ),
        ensures
            1 <= out.len() <= cluster_size,
            strictly_sorted(out@),
            within(out@, top(left@) + top(right@)),
            forall|k: int| 0 <= k < out.len() ==> merged_ok(left@, right@, idx, #[trigger] out[k]),
            !share_a_sum(left@, right@),
            complete(out@, left@, right@, cluster_size as int),
        decreases places(left@, right@) - frontier.popped(),
    {
        let ghost before = *frontier;
        match frontier.pop(Ghost(left@), Ghost(right@)) {
            Some((s, pl, pr, b)) => {
                let ghost entry = (s, pl, pr, b);
                let ghost old_out = out@;
                let ghost old_floor = floor;
                let ghost old_gone = gone;
                proof {
                    lemma_after_pop(&before, frontier, left@, right@, seeds, floor, gone, entry);
                    if old_out.len() == 0 && s != 0 {
                        lemma_least_is_least(&before, left@, right@, seeds, entry);
                    }
                    if old_out.len() == 0 && s == 0 {
                        lemma_zero_is_distance(&before, left@, right@, seeds, entry);
                    }
                    floor = s as int;
                    gone = gone.insert(place_of(entry));
                    lemma_top(left@, pl as int);
                    lemma_top(right@, pr as int);
                }
                if b {
                    if s != last_sum {
                        out.push(TreeAttackNode::new_internal(s, idx, false, false, pl, pr));
                        last_sum = s;
                    }
                    if pl + 1 < left.len() {
                        assert(left@[pl as int].sum() < left@[pl + 1].sum());
                        offer(
                            frontier,
                            left,
                            right,
                            pl + 1,
                            pr,
                            true,
                            Ghost(seeds),
                            Ghost(floor),
                            Ghost(gone),
                        );
                    }
                    if pr + 1 < right.len() {
                        assert(right@[pr as int].sum() < right@[pr + 1].sum());
                        offer(
                            frontier,
                            left,
                            right,
                            pl,
                            pr + 1,
                            true,
                            Ghost(seeds),
                            Ghost(floor),
                            Ghost(gone),
                        );
                    }
                    if pl + 1 < left.len() && pr + 1 < right.len() {
                        assert(left@[pl as int].sum() < left@[pl + 1].sum());
                        assert(right@[pr as int].sum() < right@[pr + 1].sum());
                        offer(
                            frontier,
                            left,
                            right,
                            pl + 1,
                            pr + 1,
                            true,
                            Ghost(seeds),
                            Ghost(floor),
                            Ghost(gone),
                        );
                    }
                } else {
                    let (ml, mr) = if left[pl].get_sum() >= right[pr].get_sum() {
                        (false, true)
                    } else {
                        (true, false)
                    };
                    if s != last_sum {
                        out.push(TreeAttackNode::new_internal(s, idx, ml, mr, pl, pr));
                        last_sum = s;
                    }
                    if pr > 0 {
                        proof {
                            lemma_next_in_row(
                                frontier,
                                left@,
                                right@,
                                seeds,
                                floor,
                                gone,
                                pl,
                                pr,
                                (pr - 1) as usize,
                            );
                        }
                        offer(
                            frontier,
                            left,
                            right,
                            pl,
                            pr - 1,
                            false,
                            Ghost(seeds),
                            Ghost(floor),
                            Ghost(gone),
                        );
                    }
                    if pr + 1 < right.len() {
                        proof {
                            lemma_next_in_row(
                                frontier,
                                left@,
                                right@,
                                seeds,
                                floor,
                                gone,
                                pl,
                                pr,
                                (pr + 1) as usize,
                            );
                        }
                        offer(
                            frontier,
                            left,
                            right,
                            pl,
                            pr + 1,
                            false,
                            Ghost(seeds),
                            Ghost(floor),
                            Ghost(gone),
                        );
                    }
                }
                proof {
                    lemma_cover_step(
                        &before,
                        frontier,
                        left@,
                        right@,
                        seeds,
                        old_floor,
                        old_gone,
                        entry,
                    );
                    if out.len() > old_out.len() {
                        lemma_sorted_push(old_out, out@[out.len() - 1]);
                        assert(out@ =~= old_out.push(out@[out.len() - 1]));
                        assert(out@.drop_last() =~= old_out);
                    }
                    lemma_gone_in_list(left@, right@, old_gone, entry, old_out, out@);
                }
                if s == 0 {
                    proof {
                        assert(old_out.len() == 0);
                        assert(left@[pl as int].sum() == right@[pr as int].sum());
                        assert(!b);
                        assert(out@[0] matches TreeAttackNode::Internal(n) && !n.rev_left
                            && n.rev_right);
                    }
                    return (out, true);
                }
                proof {
                    if out.len() == cluster_size {
                        lemma_complete_full(frontier, left@, right@, seeds, gone, out@);
                    }
                }
            },
            None => {
                proof {
                    lemma_same_state(&before, frontier, left@, right@, seeds, floor, gone);
                    lemma_complete_empty(
                        frontier,
                        left@,
                        right@,
                        seeds,
                        floor,
                        gone,
                        out@,
                        cluster_size as int,
                    );
                }
                break ;
            },
        }
    }
    proof {
        lemma_merged(left@, right@, out@, idx, cluster_size as nat);
    }
    (out, false)
}

} // verus!
