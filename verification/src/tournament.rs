//! The tournament of the tree solver in terms of sums alone: which sums the
//! lists hold, level by level, and whether two lists that meet share one.

use crate::frontier::{distance, place_value};
use crate::hash::hash_of;
use crate::lists::{has_sum, strictly_sorted};
use crate::merge::{addable, complete, merged_ok, share_a_sum, top};
use crate::order::{first_sum, lemma_ordered_map, ordered};
use crate::power::two_pow;
use crate::tree_attack::{leaf_sum, TreeAttackNode};
use crate::tree_invariant::{pair_leaf, pair_leaves, pair_sum, Problem};
use vstd::prelude::*;

verus! {

/// The least member of a set of numbers.
pub open spec fn least(s: Set<int>) -> int {
    choose|m: int| s.contains(m) && forall|v: int| s.contains(v) ==> m <= v
}

/// The `count` least members of `s` in growing order, or all of them where
/// there are fewer.
#[verifier::opaque]
pub open spec fn ascending(s: Set<int>, count: nat) -> Seq<int>
    decreases count,
{
    if count == 0 || s =~= Set::<int>::empty() {
        Seq::empty()
    } else {
        seq![least(s)] + ascending(s.remove(least(s)), (count - 1) as nat)
    }
}

/// The numbers grow strictly from each to the next.
#[verifier::opaque]
pub open spec fn growing(list: Seq<int>) -> bool {
    forall|a: int, b: int| 0 <= a < b < list.len() ==> list[a] < list[b]
}

/// `list` holds members of `s` only, `count` at most, and every member of
/// `s` is in `list` or exceeds all of `list`, which is full.
#[verifier::opaque]
pub open spec fn least_of(list: Seq<int>, s: Set<int>, count: nat) -> bool {
    &&& list.len() <= count
    &&& forall|k: int| 0 <= k < list.len() ==> s.contains(#[trigger] list[k])
    &&& forall|v: int| #[trigger]
        s.contains(v) ==> list.contains(v) || (list.len() == count && (list.len() == 0 || v
            > list.last()))
}

/// The first number of a list in growing order that holds the least members
/// of a set is the least member of the set.
proof fn lemma_first_is_least(list: Seq<int>, s: Set<int>, count: nat)
    requires
        growing(list),
        least_of(list, s, count),
        list.len() > 0,
    ensures
        least(s) == list[0],
        s.contains(list[0]),
        count > 0,
{
    reveal(growing);
    reveal(least_of);
    let first = list[0];
    assert(s.contains(first));
    assert forall|v: int| s.contains(v) implies first <= v by {
        if list.contains(v) {
            let k = choose|k: int| 0 <= k < list.len() && list[k] == v;
            if k > 0 {
                assert(list[0] < list[k]);
            }
        } else {
            if list.len() > 1 {
                assert(list[0] < list[list.len() - 1]);
            }
        }
    }
    let m = least(s);
    assert(s.contains(m) && forall|v: int| s.contains(v) ==> m <= v);
}

/// Without its first number, a list in growing order that holds the least
/// members of a set holds the least members of the rest of the set.
proof fn lemma_rest_is_least(list: Seq<int>, s: Set<int>, count: nat)
    requires
        growing(list),
        least_of(list, s, count),
        list.len() > 0,
    ensures
        growing(list.drop_first()),
        least_of(list.drop_first(), s.remove(list[0]), (count - 1) as nat),
{
    reveal(growing);
    reveal(least_of);
    let first = list[0];
    let rest = list.drop_first();
    let fewer = s.remove(first);
    assert forall|a: int, b: int| 0 <= a < b < rest.len() implies rest[a] < rest[b] by {
        assert(list[a + 1] < list[b + 1]);
    }
    assert forall|k: int| 0 <= k < rest.len() implies fewer.contains(#[trigger] rest[k]) by {
        assert(rest[k] == list[k + 1]);
        assert(list[0] < list[k + 1]);
    }
    assert forall|v: int| #[trigger] fewer.contains(v) implies rest.contains(v) || (rest.len()
        == count - 1 && (rest.len() == 0 || v > rest.last())) by {
        assert(s.contains(v));
        if list.contains(v) {
            let k = choose|k: int| 0 <= k < list.len() && list[k] == v;
            assert(k > 0);
            assert(rest[k - 1] == v);
        } else {
            if rest.len() > 0 {
                assert(rest.last() == list.last());
            }
        }
    }
}

/// Where no list can be made, there are no least members to list.
proof fn lemma_ascending_none(list: Seq<int>, s: Set<int>, count: nat)
    requires
        least_of(list, s, count),
        list.len() == 0,
    ensures
        ascending(s, count) == Seq::<int>::empty(),
{
    reveal(least_of);
    reveal(ascending);
    if count > 0 {
        assert forall|v: int| !s.contains(v) by {
            if s.contains(v) {
                assert(list.contains(v));
            }
        }
        assert(s =~= Set::<int>::empty());
    }
}

/// The least members of a set that is not empty: its least member, and the
/// least members of the rest.
proof fn lemma_ascending_some(s: Set<int>, count: nat, member: int)
    requires
        count > 0,
        s.contains(member),
    ensures
        ascending(s, count) == seq![least(s)] + ascending(
            s.remove(least(s)),
            (count - 1) as nat,
        ),
{
    reveal(ascending);
    assert(!(s =~= Set::<int>::empty()));
}

/// A list in growing order that holds the least members of a set is the
/// list of its least members.
pub proof fn lemma_ascending(list: Seq<int>, s: Set<int>, count: nat)
    requires
        growing(list),
        least_of(list, s, count),
    ensures
        list == ascending(s, count),
    decreases list.len(),
{
    if list.len() == 0 {
        lemma_ascending_none(list, s, count);
        assert(list =~= Seq::<int>::empty());
    } else {
        lemma_first_is_least(list, s, count);
        lemma_rest_is_least(list, s, count);
        let rest = list.drop_first();
        lemma_ascending(rest, s.remove(list[0]), (count - 1) as nat);
        lemma_ascending_some(s, count, list[0]);
        assert(list =~= seq![list[0]] + rest);
    }
}

/// The sums of a list of nodes.
pub open spec fn sums(list: Seq<TreeAttackNode>) -> Seq<int> {
    Seq::new(list.len(), |k: int| list[k].sum())
}

/// `v` is the sum or the distance of a number of `left` and one of `right`.
pub open spec fn is_value(left: Seq<int>, right: Seq<int>, v: int) -> bool {
    exists|pl: int, pr: int|
        0 <= pl < left.len() && 0 <= pr < right.len() && (v == #[trigger] left[pl]
            + #[trigger] right[pr] || v == distance(left[pl], right[pr]))
}

/// The sums and the distances of the numbers of `left` and those of `right`.
pub open spec fn values(left: Seq<int>, right: Seq<int>) -> Set<int> {
    Set::new(|v: int| is_value(left, right, v))
}

/// What two lists of sums are merged into: their `count` least sums and
/// distances, in growing order.
pub open spec fn merged(left: Seq<int>, right: Seq<int>, count: nat) -> Seq<int> {
    ascending(values(left, right), count)
}

/// Some number stands in both lists.
pub open spec fn shared(left: Seq<int>, right: Seq<int>) -> bool {
    exists|pl: int, pr: int|
        0 <= pl < left.len() && 0 <= pr < right.len() && #[trigger] left[pl] == #[trigger] right[pr]
}

/// Lists of nodes share a sum where their sums share a number.
pub proof fn lemma_shared(left: Seq<TreeAttackNode>, right: Seq<TreeAttackNode>)
    ensures
        share_a_sum(left, right) == shared(sums(left), sums(right)),
{
    if share_a_sum(left, right) {
        let (pl, pr) = choose|pl: int, pr: int|
            0 <= pl < left.len() && 0 <= pr < right.len() && (#[trigger] left[pl]).sum() == (
            #[trigger] right[pr]).sum();
        assert(sums(left)[pl] == sums(right)[pr]);
    }
    if shared(sums(left), sums(right)) {
        let (pl, pr) = choose|pl: int, pr: int|
            0 <= pl < left.len() && 0 <= pr < right.len() && #[trigger] sums(left)[pl]
                == #[trigger] sums(right)[pr];
        assert(left[pl].sum() == right[pr].sum());
    }
}

/// The list that a merge makes, where the two lists share no sum, holds the
/// sums that `merged` names.
pub proof fn lemma_merged(
    left: Seq<TreeAttackNode>,
    right: Seq<TreeAttackNode>,
    out: Seq<TreeAttackNode>,
    idx: usize,
    count: nat,
)
    requires
        addable(left, right),
        1 <= out.len() <= count,
        strictly_sorted(out),
        forall|k: int| 0 <= k < out.len() ==> merged_ok(left, right, idx, #[trigger] out[k]),
        complete(out, left, right, count as int),
    ensures
        sums(out) == merged(sums(left), sums(right), count),
{
    reveal(growing);
    reveal(least_of);
    let list = sums(out);
    let s = values(sums(left), sums(right));
    assert(growing(list)) by {
        assert forall|a: int, b: int| 0 <= a < b < list.len() implies list[a] < list[b] by {
            assert(out[a].sum() < out[b].sum());
        }
    }
    assert forall|k: int| 0 <= k < list.len() implies s.contains(#[trigger] list[k]) by {
        assert(merged_ok(left, right, idx, out[k]));
        match out[k] {
            TreeAttackNode::Internal(n) => {
                let pl = n.pos_left as int;
                let pr = n.pos_right as int;
                assert(sums(left)[pl] == left[pl].sum());
                assert(sums(right)[pr] == right[pr].sum());
                assert(is_value(sums(left), sums(right), list[k]));
            },
            TreeAttackNode::Leaf(n) => {},
        }
    }
    assert forall|v: int| #[trigger] s.contains(v) implies list.contains(v) || (list.len() == count
        && (list.len() == 0 || v > list.last())) by {
        assert(is_value(sums(left), sums(right), v));
        let (pl, pr) = choose|pl: int, pr: int|
            0 <= pl < left.len() && 0 <= pr < right.len() && (v == #[trigger] sums(left)[pl]
                + #[trigger] sums(right)[pr] || v == distance(sums(left)[pl], sums(right)[pr]));
        let is_sum = v == sums(left)[pl] + sums(right)[pr];
        assert(v == place_value(left, right, pl, pr, is_sum));
        if has_sum(out, v) {
            let k = choose|k: int| 0 <= k < out.len() && (#[trigger] out[k]).sum() == v;
            assert(list[k] == v);
        } else {
            assert(list.last() == top(out));
        }
    }
    lemma_ascending(list, s, count);
}

/// The key of a list of sums: its first sum.
pub open spec fn head() -> spec_fn(Seq<int>) -> int {
    |list: Seq<int>| list[0]
}

/// The map from a list of nodes to its sums.
pub open spec fn list_sums() -> spec_fn(Vec<TreeAttackNode>) -> Seq<int> {
    |list: Vec<TreeAttackNode>| sums(list@)
}

/// `v` is the sum of the leaf for two different words, given the hashes of
/// the words and the power of the base for the position of the leaf.
pub open spec fn is_leaf_value(hashes: Seq<int>, pot: int, module: int, v: int) -> bool {
    exists|a: int, c: int|
        0 <= a < hashes.len() && 0 <= c < hashes.len() && a != c && v == leaf_sum(
            #[trigger] hashes[a],
            #[trigger] hashes[c],
            pot,
            module,
        )
}

/// The sums of the leaves of one position.
pub open spec fn leaf_values(hashes: Seq<int>, pot: int, module: int) -> Set<int> {
    Set::new(|v: int| is_leaf_value(hashes, pot, module, v))
}

/// The list of leaves of one position, as sums: every sum of a leaf, once,
/// in growing order.
pub open spec fn leaf_sums(hashes: Seq<int>, pot: int, module: int) -> Seq<int> {
    ascending(leaf_values(hashes, pot, module), module as nat)
}

/// The hashes of the words of a search.
pub open spec fn hashes(pb: Problem) -> Seq<int> {
    Seq::new(pb.words.len(), |i: int| hash_of(pb.words[i], pb.base, pb.module))
}

/// The lists of leaves of a search, position by position.
pub open spec fn leaf_level(pb: Problem) -> Seq<Seq<int>> {
    Seq::new(pb.len, |i: int| leaf_sums(hashes(pb), pb.weight(i) % pb.module, pb.module))
}

/// The two lists that meet as the pair `t` of lists in order share a sum.
pub open spec fn pair_shared(lists: Seq<Seq<int>>, t: int) -> bool {
    shared(lists[2 * t], lists[2 * t + 1])
}

/// One round of the tournament: the lists are ordered by their first sums,
/// and each two neighbours are merged into a list of `count` sums at most.
pub open spec fn next_level(lists: Seq<Seq<int>>, count: nat) -> Seq<Seq<int>> {
    let o = ordered(lists, head());
    Seq::new((lists.len() / 2) as nat, |t: int| merged(o[2 * t], o[2 * t + 1], count))
}

/// In the round that starts from `lists`, two lists that meet share a sum.
pub open spec fn shares_in(lists: Seq<Seq<int>>) -> bool {
    exists|t: int| 0 <= t < lists.len() / 2 && #[trigger] pair_shared(ordered(lists, head()), t)
}

/// The lists after `rounds` rounds.
pub open spec fn level(pb: Problem, count: nat, rounds: nat) -> Seq<Seq<int>>
    decreases rounds,
{
    if rounds == 0 {
        leaf_level(pb)
    } else {
        next_level(level(pb, count, (rounds - 1) as nat), count)
    }
}

/// The search for strings of two to the power of `p` words.
pub open spec fn problem_of(words: Seq<Seq<char>>, base: int, module: int, p: nat) -> Problem {
    Problem { words, base, module, len: two_pow(p) }
}

/// The tournament for strings of two to the power of `p` words comes to a
/// round in which two lists that meet share a sum.
pub open spec fn finds_with(
    words: Seq<Seq<char>>,
    base: int,
    module: int,
    count: nat,
    p: nat,
) -> bool {
    exists|rounds: nat|
        rounds < p && #[trigger] shares_in(level(problem_of(words, base, module, p), count, rounds))
}

/// Some tournament for strings of 8, 16, ..., or 2048 words comes to a round
/// in which two lists that meet share a sum.
pub open spec fn finds(words: Seq<Seq<char>>, base: int, module: int, count: nat) -> bool {
    exists|p: nat| 3 <= p <= 11 && #[trigger] finds_with(words, base, module, count, p)
}

/// The tournament for strings of two to the power of `p` words is the first
/// of those for 8, 16, ... words in which two lists that meet share a sum.
pub open spec fn finds_first_with(
    words: Seq<Seq<char>>,
    base: int,
    module: int,
    count: nat,
    p: nat,
) -> bool {
    &&& 3 <= p <= 11
    &&& finds_with(words, base, module, count, p)
    &&& forall|q: nat| 3 <= q < p ==> !#[trigger] finds_with(words, base, module, count, q)
}

/// Numbers that grow strictly from one that is not negative are no fewer
/// than their place in the list.
proof fn lemma_growing_bound(list: Seq<int>, k: int)
    requires
        growing(list),
        list.len() > 0,
        list[0] >= 0,
        0 <= k < list.len(),
    ensures
        list[k] >= k,
    decreases k,
{
    reveal(growing);
    if k > 0 {
        lemma_growing_bound(list, k - 1);
        assert(list[k - 1] < list[k]);
    }
}

/// The list of leaves that is made for a position holds the sums that
/// `leaf_sums` names.
pub proof fn lemma_leaf_sums(
    word_hash: Seq<u64>,
    module: int,
    pos: usize,
    pot: int,
    leaves: Seq<TreeAttackNode>,
)
    requires
        module > 0,
        strictly_sorted(leaves),
        pair_leaves(word_hash, module, pos, pot, leaves),
        forall|a: int, c: int|
            0 <= a < word_hash.len() && 0 <= c < word_hash.len() && a != c ==> has_sum(
                leaves,
                #[trigger] pair_sum(word_hash, a, c, pot, module),
            ),
    ensures
        sums(leaves) == leaf_sums(word_hash.map_values(|h: u64| h as int), pot, module),
{
    let list = sums(leaves);
    let hashes = word_hash.map_values(|h: u64| h as int);
    let s = leaf_values(hashes, pot, module);
    assert(growing(list)) by {
        reveal(growing);
        assert forall|a: int, b: int| 0 <= a < b < list.len() implies list[a] < list[b] by {
            assert(leaves[a].sum() < leaves[b].sum());
        }
    }
    if list.len() > 0 {
        assert(pair_leaf(word_hash, module, pos, pot, leaves[0]));
        assert(pair_leaf(word_hash, module, pos, pot, leaves[leaves.len() - 1]));
        lemma_growing_bound(list, list.len() - 1);
    }
    assert(least_of(list, s, module as nat)) by {
        reveal(least_of);
        assert forall|k: int| 0 <= k < list.len() implies s.contains(#[trigger] list[k]) by {
            assert(pair_leaf(word_hash, module, pos, pot, leaves[k]));
            match leaves[k] {
                TreeAttackNode::Leaf(n) => {
                    assert(hashes[n.word1 as int] == word_hash[n.word1 as int]);
                    assert(hashes[n.word2 as int] == word_hash[n.word2 as int]);
                    assert(is_leaf_value(hashes, pot, module, list[k]));
                },
                TreeAttackNode::Internal(n) => {},
            }
        }
        assert forall|v: int| #[trigger] s.contains(v) implies list.contains(v) by {
            assert(is_leaf_value(hashes, pot, module, v));
            let (a, c) = choose|a: int, c: int|
                0 <= a < hashes.len() && 0 <= c < hashes.len() && a != c && v == leaf_sum(
                    #[trigger] hashes[a],
                    #[trigger] hashes[c],
                    pot,
                    module,
                );
            assert(has_sum(leaves, pair_sum(word_hash, a, c, pot, module)));
            let k = choose|k: int| 0 <= k < leaves.len() && (#[trigger] leaves[k]).sum() == v;
            assert(list[k] == v);
        }
    }
    lemma_ascending(list, s, module as nat);
}

/// The lists at the tree positions from `lo` up to twice `lo`, as sums.
pub open spec fn level_sums(tree: Seq<Vec<TreeAttackNode>>, lo: int) -> Seq<Seq<int>> {
    tree.subrange(lo, 2 * lo).map_values(list_sums())
}

/// The list at tree position `j` holds the sums that the two lists below it
/// are merged into.
pub open spec fn merged_at(tree: Seq<Vec<TreeAttackNode>>, j: int, count: nat) -> bool {
    sums(tree[j]@) == merged(sums(tree[2 * j]@), sums(tree[2 * j + 1]@), count)
}

/// The two lists below tree position `j` share no sum, and the list at `j`
/// holds the sums that they are merged into.
pub open spec fn settled(tree: Seq<Vec<TreeAttackNode>>, j: int, count: nat) -> bool {
    !share_a_sum(tree[2 * j]@, tree[2 * j + 1]@) && merged_at(tree, j, count)
}

/// Lists of nodes that are ordered by the sums of their first nodes are, as
/// sums, ordered by their first sums.
pub proof fn lemma_ordered_sums(
    old_tree: Seq<Vec<TreeAttackNode>>,
    new_tree: Seq<Vec<TreeAttackNode>>,
    lo: int,
)
    requires
        1 <= lo,
        2 * lo <= old_tree.len(),
        new_tree.len() == old_tree.len(),
        forall|j: int| lo <= j < 2 * lo ==> (#[trigger] old_tree[j]).len() > 0,
        new_tree.subrange(lo, 2 * lo) == ordered(old_tree.subrange(lo, 2 * lo), first_sum()),
    ensures
        level_sums(new_tree, lo) == ordered(level_sums(old_tree, lo), head()),
{
    let items = old_tree.subrange(lo, 2 * lo);
    assert forall|k: int| 0 <= k < items.len() implies head()(list_sums()(#[trigger] items[k]))
        == first_sum()(items[k]) by {
        assert(items[k] == old_tree[k + lo]);
        assert(sums(items[k]@)[0] == items[k]@[0].sum());
    }
    lemma_ordered_map(items, list_sums(), first_sum(), head());
}

/// Where the two lists below a tree position share a sum, the round has two
/// lists that meet and share a sum.
pub proof fn lemma_round_shares(
    tree: Seq<Vec<TreeAttackNode>>,
    lists: Seq<Seq<int>>,
    z: int,
    i: int,
)
    requires
        1 <= z <= i < 2 * z,
        4 * z <= tree.len(),
        lists.len() == 2 * z,
        level_sums(tree, 2 * z) == ordered(lists, head()),
        share_a_sum(tree[2 * i]@, tree[2 * i + 1]@),
    ensures
        shares_in(lists),
{
    let o = ordered(lists, head());
    let t = i - z;
    lemma_shared(tree[2 * i]@, tree[2 * i + 1]@);
    assert(level_sums(tree, 2 * z)[2 * t] == sums(tree[2 * i]@));
    assert(level_sums(tree, 2 * z)[2 * t + 1] == sums(tree[2 * i + 1]@));
    assert(pair_shared(o, t));
}

/// Where no two lists that meet share a sum, and each list of the next level
/// is merged from the two below it, the next level is what the round makes.
pub proof fn lemma_round_merges(
    tree: Seq<Vec<TreeAttackNode>>,
    lists: Seq<Seq<int>>,
    z: int,
    count: nat,
)
    requires
        1 <= z,
        4 * z <= tree.len(),
        lists.len() == 2 * z,
        level_sums(tree, 2 * z) == ordered(lists, head()),
        forall|j: int| z <= j < 2 * z ==> #[trigger] settled(tree, j, count),
    ensures
        !shares_in(lists),
        level_sums(tree, z) == next_level(lists, count),
{
    let o = ordered(lists, head());
    assert forall|t: int| 0 <= t < lists.len() / 2 implies !#[trigger] pair_shared(o, t) by {
        let j = z + t;
        assert(settled(tree, j, count));
        lemma_shared(tree[2 * j]@, tree[2 * j + 1]@);
        assert(level_sums(tree, 2 * z)[2 * t] == sums(tree[2 * j]@));
        assert(level_sums(tree, 2 * z)[2 * t + 1] == sums(tree[2 * j + 1]@));
    }
    let made = level_sums(tree, z);
    let next = next_level(lists, count);
    assert(made.len() == next.len());
    assert forall|t: int| 0 <= t < made.len() implies made[t] == next[t] by {
        let j = z + t;
        assert(settled(tree, j, count));
        assert(made[t] == sums(tree[j]@));
        assert(level_sums(tree, 2 * z)[2 * t] == sums(tree[2 * j]@));
        assert(level_sums(tree, 2 * z)[2 * t + 1] == sums(tree[2 * j + 1]@));
    }
    assert(made =~= next);
}

} // verus!
