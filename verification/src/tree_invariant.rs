//! What holds of the tree of lists while the tree solver works: the nodes
//! are sound, and the lists of one level cover separate positions.

use crate::hash::{hash_of, poly};
use crate::lists::{has_sum, lemma_permuted_member, strictly_sorted};
use crate::merge::{merged_ok, share_a_sum, within};
use crate::order::{first_sum, ordered, rising};
use crate::tree_attack::{leaf_sum, TreeAttackLeafNode, TreeAttackNode};
use vstd::arithmetic::div_mod::{
    lemma_mod_multiples_vanish, lemma_mod_self_0, lemma_mod_twice, lemma_mul_mod_noop_general,
    lemma_small_mod, lemma_sub_mod_noop,
};
use vstd::arithmetic::power::pow;
use vstd::prelude::*;

verus! {

/// One search: the words to choose from, the hash to defeat, and the number
/// of positions that a word is chosen for.
pub struct Problem {
    pub words: Seq<Seq<char>>,
    pub base: int,
    pub module: int,
    pub len: nat,
}

impl Problem {
    /// The common width of the words.
    pub open spec fn width(self) -> nat {
        self.words[0].len()
    }

    /// The power of the base that a word at position `pos` is multiplied by
    /// in the polynomial of the whole string.
    pub open spec fn weight(self, pos: int) -> int {
        pow(self.base, (self.width() * (self.len - 1 - pos)) as nat)
    }

    /// What the polynomial of the first string gains over that of the second
    /// where word `a` stands in the first and word `c` in the second, at
    /// position `pos`.
    pub open spec fn delta(self, pos: int, a: int, c: int) -> int {
        (poly(self.words[a], self.base) - poly(self.words[c], self.base)) * self.weight(pos)
    }
}

/// What a child's sum adds to its parent's sum: the sum itself, or its
/// negative where the child is reversed.
pub open spec fn signed(rev: bool, sum: int) -> int {
    if rev {
        -sum
    } else {
        sum
    }
}

/// A leaf names a position and two different words, and its sum is the
/// residue of what the choice contributes.
pub open spec fn leaf_ok(pb: Problem, n: TreeAttackLeafNode) -> bool {
    &&& n.idx < pb.len
    &&& n.word1 < pb.words.len()
    &&& n.word2 < pb.words.len()
    &&& n.word1 != n.word2
    &&& 0 <= n.sum < pb.module
    &&& n.sum as int % pb.module == pb.delta(n.idx as int, n.word1 as int, n.word2 as int)
        % pb.module
}

/// The node `node` of the list at place `j` is sound. A leaf is as `leaf_ok`
/// says and covers its own position. An internal node points at one node in
/// each of its two child lists, which lie further down; its sum is the signed
/// sum of theirs; and the positions that its children cover are apart.
pub open spec fn node_ok(
    pb: Problem,
    tree: Seq<Vec<TreeAttackNode>>,
    span: Seq<Set<int>>,
    j: int,
    node: TreeAttackNode,
) -> bool {
    match node {
        TreeAttackNode::Leaf(n) => leaf_ok(pb, n) && span[j] == set![n.idx as int],
        TreeAttackNode::Internal(n) => {
            let l = 2 * n.idx;
            let r = 2 * n.idx + 1;
            &&& j < l
            &&& r < tree.len()
            &&& n.pos_left < tree[l].len()
            &&& n.pos_right < tree[r].len()
            &&& !(n.rev_left && n.rev_right)
            &&& n.sum as int == signed(n.rev_left, tree[l][n.pos_left as int].sum()) + signed(
                n.rev_right,
                tree[r][n.pos_right as int].sum(),
            )
            &&& span[j] == span[l] + span[r]
            &&& span[l].disjoint(span[r])
        },
    }
}

/// Every node of every list from place `from` on is sound.
pub open spec fn deep_ok(
    pb: Problem,
    tree: Seq<Vec<TreeAttackNode>>,
    span: Seq<Set<int>>,
    from: int,
) -> bool {
    &&& span.len() == tree.len()
    &&& forall|j: int, k: int|
        from <= j < tree.len() && 0 <= k < tree[j].len() ==> #[trigger] node_ok(
            pb,
            tree,
            span,
            j,
            tree[j][k],
        )
}

/// A list of leaves for position `pos`: not empty, each leaf as `leaf_ok`
/// says, in strictly growing order of their sums.
pub open spec fn leaf_list(pb: Problem, list: Seq<TreeAttackNode>, pos: int) -> bool {
    &&& list.len() > 0
    &&& strictly_sorted(list)
    &&& forall|k: int|
        0 <= k < list.len() ==> (#[trigger] list[k] matches TreeAttackNode::Leaf(n) && n.idx
            == pos && leaf_ok(pb, n))
}

/// The sum of the leaf for the words `a` and `c`, from the hashes of the
/// words.
pub open spec fn pair_sum(word_hash: Seq<u64>, a: int, c: int, pot: int, module: int) -> int {
    leaf_sum(word_hash[a] as int, word_hash[c] as int, pot, module)
}

/// `node` is the leaf at position `pos` for two different words, with the
/// sum that belongs to them.
pub open spec fn pair_leaf(
    word_hash: Seq<u64>,
    module: int,
    pos: usize,
    pot: int,
    node: TreeAttackNode,
) -> bool {
    &&& node matches TreeAttackNode::Leaf(n)
    &&& n.idx == pos
    &&& n.word1 < word_hash.len()
    &&& n.word2 < word_hash.len()
    &&& n.word1 != n.word2
    &&& n.sum as int == pair_sum(word_hash, n.word1 as int, n.word2 as int, pot, module)
    &&& 0 <= n.sum < module
}

/// All nodes of the list are leaves at `pos` as `pair_leaf` says.
pub open spec fn pair_leaves(
    word_hash: Seq<u64>,
    module: int,
    pos: usize,
    pot: int,
    list: Seq<TreeAttackNode>,
) -> bool {
    forall|k: int| 0 <= k < list.len() ==> pair_leaf(word_hash, module, pos, pot, #[trigger] list[k])
}

/// The leaf sum is the residue of what the two words contribute at their
/// position.
pub proof fn lemma_leaf_sum(pa: int, pc: int, pw: int, m: int)
    requires
        m > 0,
    ensures
        0 <= leaf_sum(pa % m, pc % m, pw % m, m) < m,
        leaf_sum(pa % m, pc % m, pw % m, m) % m == ((pa - pc) * pw) % m,
{
    let x = (pa % m + m - pc % m) % m;
    assert(x == (pa - pc) % m) by {
        lemma_mod_multiples_vanish(1, pa % m - pc % m, m);
        lemma_sub_mod_noop(pa, pc, m);
    }
    lemma_mul_mod_noop_general(pa - pc, pw, m);
    lemma_mod_twice((pa - pc) * pw, m);
}

/// The leaves that `make_leaves` makes from the hashes of the words, with the
/// power of the base that belongs to the position, are the leaves of the
/// search.
pub proof fn lemma_leaves_sound(
    pb: Problem,
    word_hash: Seq<u64>,
    leaves: Seq<TreeAttackNode>,
    pos: usize,
    pot: int,
)
    requires
        pb.module > 0,
        pos < pb.len,
        word_hash.len() == pb.words.len(),
        word_hash.len() >= 2,
        forall|i: int|
            0 <= i < word_hash.len() ==> #[trigger] word_hash[i] as int == hash_of(
                pb.words[i],
                pb.base,
                pb.module,
            ),
        pot == pb.weight(pos as int) % pb.module,
        strictly_sorted(leaves),
        leaves.len() > 0,
        pair_leaves(word_hash, pb.module, pos, pot, leaves),
    ensures
        leaf_list(pb, leaves, pos as int),
{
    assert forall|k: int| 0 <= k < leaves.len() implies (
    #[trigger] leaves[k] matches TreeAttackNode::Leaf(n) && n.idx == pos && leaf_ok(pb, n)) by {
        assert(pair_leaf(word_hash, pb.module, pos, pot, leaves[k]));
        match leaves[k] {
            TreeAttackNode::Leaf(n) => {
                assert(word_hash[n.word1 as int] as int == hash_of(
                    pb.words[n.word1 as int],
                    pb.base,
                    pb.module,
                ));
                assert(word_hash[n.word2 as int] as int == hash_of(
                    pb.words[n.word2 as int],
                    pb.base,
                    pb.module,
                ));
                lemma_leaf_sum(
                    poly(pb.words[n.word1 as int], pb.base),
                    poly(pb.words[n.word2 as int], pb.base),
                    pb.weight(pos as int),
                    pb.module,
                );
            },
            TreeAttackNode::Internal(n) => {},
        }
    }
}

/// Two words at different places of the alphabet have one hash.
pub open spec fn twins(words: Seq<Seq<char>>, b: int, m: int) -> bool {
    exists|a: int, c: int|
        0 <= a < words.len() && 0 <= c < words.len() && a != c && hash_of(#[trigger] words[a], b, m)
            == hash_of(#[trigger] words[c], b, m)
}

/// Where two words have one hash, every list of leaves holds the sum zero.
pub proof fn lemma_twins_make_zero(
    pb: Problem,
    word_hash: Seq<u64>,
    leaves: Seq<TreeAttackNode>,
    pot: int,
)
    requires
        pb.module > 0,
        word_hash.len() == pb.words.len(),
        forall|i: int|
            0 <= i < word_hash.len() ==> #[trigger] word_hash[i] as int == hash_of(
                pb.words[i],
                pb.base,
                pb.module,
            ),
        forall|a: int, c: int|
            0 <= a < word_hash.len() && 0 <= c < word_hash.len() && a != c ==> has_sum(
                leaves,
                #[trigger] pair_sum(word_hash, a, c, pot, pb.module),
            ),
        twins(pb.words, pb.base, pb.module),
    ensures
        has_sum(leaves, 0),
{
    let (a, c) = choose|a: int, c: int|
        0 <= a < pb.words.len() && 0 <= c < pb.words.len() && a != c && hash_of(
            #[trigger] pb.words[a],
            pb.base,
            pb.module,
        ) == hash_of(#[trigger] pb.words[c], pb.base, pb.module);
    assert(word_hash[a] as int == hash_of(pb.words[a], pb.base, pb.module));
    assert(word_hash[c] as int == hash_of(pb.words[c], pb.base, pb.module));
    let h = word_hash[a] as int;
    assert(has_sum(leaves, pair_sum(word_hash, a, c, pot, pb.module)));
    assert(pair_sum(word_hash, a, c, pot, pb.module) == 0) by {
        lemma_mod_self_0(pb.module);
        assert((h + pb.module - h) % pb.module == 0);
        assert(0 * pot == 0);
        lemma_small_mod(0, pb.module as nat);
    }
}

/// The tree position that the list of a node was made at: for a leaf, the
/// place of its position in the lower half of the tree.
pub open spec fn home(node: TreeAttackNode, len: nat) -> int {
    match node {
        TreeAttackNode::Leaf(n) => n.idx + len,
        TreeAttackNode::Internal(n) => n.idx as int,
    }
}

/// A list that waits to be merged: not empty, in strictly growing order of
/// its sums, none of them negative or above `bound`.
pub open spec fn list_ready(list: Seq<TreeAttackNode>, bound: int) -> bool {
    &&& list.len() > 0
    &&& strictly_sorted(list)
    &&& within(list, bound)
}

/// All nodes of the list were made at tree position `j`.
pub open spec fn made_at(list: Seq<TreeAttackNode>, len: nat, j: int) -> bool {
    forall|k: int| 0 <= k < list.len() ==> home(#[trigger] list[k], len) == j
}

/// No position is covered by two of the lists from `lo` up to twice `lo`.
pub open spec fn apart(span: Seq<Set<int>>, lo: int) -> bool {
    forall|j1: int, j2: int|
        lo <= j1 < 2 * lo && lo <= j2 < 2 * lo && j1 != j2 ==> (#[trigger] span[j1]).disjoint(
            #[trigger] span[j2],
        )
}

/// The lists at the tree positions from `lo` up to twice `lo` wait to be
/// merged, and what lies above them is empty. Every node from `lo` on is
/// sound, and no position is covered by two of the lists that wait.
pub open spec fn waiting(
    pb: Problem,
    tree: Seq<Vec<TreeAttackNode>>,
    span: Seq<Set<int>>,
    lo: int,
    bound: int,
) -> bool {
    &&& tree.len() == 2 * pb.len
    &&& span.len() == 2 * pb.len
    &&& 1 <= lo <= pb.len
    &&& forall|j: int| 0 <= j < lo ==> (#[trigger] tree[j]).len() == 0
    &&& forall|j: int| 0 <= j < lo ==> #[trigger] span[j] == Set::<int>::empty()
    &&& deep_ok(pb, tree, span, lo)
    &&& forall|j: int| lo <= j < 2 * lo ==> list_ready((#[trigger] tree[j])@, bound)
    &&& apart(span, lo)
}

/// The lists from `lo` up to twice `lo` wait, each where it was made.
pub open spec fn in_place(tree: Seq<Vec<TreeAttackNode>>, len: nat, lo: int, bound: int) -> bool {
    forall|j: int|
        lo <= j < 2 * lo ==> made_at((#[trigger] tree[j])@, len, j) && list_ready(tree[j]@, bound)
}

/// The leaves that `init_attack` makes wait for the first phase.
pub proof fn lemma_leaves_wait(pb: Problem, tree: Seq<Vec<TreeAttackNode>>, span: Seq<Set<int>>)
    requires
        pb.len >= 1,
        pb.module > 0,
        tree.len() == 2 * pb.len,
        span.len() == 2 * pb.len,
        forall|j: int| 0 <= j < pb.len ==> (#[trigger] tree[j]).len() == 0,
        forall|j: int| 0 <= j < pb.len ==> #[trigger] span[j] == Set::<int>::empty(),
        forall|j: int|
            pb.len <= j < 2 * pb.len ==> leaf_list(pb, (#[trigger] tree[j])@, j - pb.len)
                && span[j] == set![j - pb.len],
    ensures
        waiting(pb, tree, span, pb.len as int, pb.module),
        in_place(tree, pb.len, pb.len as int, pb.module),
{
    let len = pb.len as int;
    assert forall|j: int, k: int| len <= j < tree.len() && 0 <= k < tree[j].len() implies
        #[trigger] node_ok(pb, tree, span, j, tree[j][k]) by {
        assert(leaf_list(pb, tree[j]@, j - len));
        assert(tree[j]@[k] matches TreeAttackNode::Leaf(n) && n.idx == j - len && leaf_ok(pb, n));
    }
    assert forall|j: int| len <= j < 2 * len implies list_ready((#[trigger] tree[j])@, pb.module)
        && made_at(tree[j]@, pb.len, j) by {
        assert(leaf_list(pb, tree[j]@, j - len));
        assert forall|k: int| 0 <= k < tree[j]@.len() implies 0 <= (#[trigger] tree[j]@[k]).sum()
            <= pb.module && home(tree[j]@[k], pb.len) == j by {
            assert(tree[j]@[k] matches TreeAttackNode::Leaf(n) && n.idx == j - len && leaf_ok(
                pb,
                n,
            ));
        }
    }
    assert forall|j1: int, j2: int|
        len <= j1 < 2 * len && len <= j2 < 2 * len && j1 != j2 implies (#[trigger] span[j1]).disjoint(
        #[trigger] span[j2],
    ) by {
        assert(leaf_list(pb, tree[j1]@, j1 - len));
        assert(leaf_list(pb, tree[j2]@, j2 - len));
    }
}

/// The two lists below tree position `j` share a sum.
pub open spec fn pair_shares(tree: Seq<Vec<TreeAttackNode>>, j: int) -> bool {
    share_a_sum(tree[2 * j]@, tree[2 * j + 1]@)
}

/// The list at `j` is made from the two lists below it, which share no sum.
pub open spec fn made(
    tree: Seq<Vec<TreeAttackNode>>,
    span: Seq<Set<int>>,
    len: nat,
    j: int,
    bound: int,
) -> bool {
    &&& list_ready(tree[j]@, 2 * bound)
    &&& made_at(tree[j]@, len, j)
    &&& span[j] == span[2 * j] + span[2 * j + 1]
    &&& !pair_shares(tree, j)
}

/// A phase under way: the lists from `2 * z` up to `4 * z` are being merged
/// in pairs, and the lists from `z` up to `i` are made, each from the two
/// lists below it, which share no sum. The rest of the upper part is empty.
pub open spec fn merging(
    pb: Problem,
    tree: Seq<Vec<TreeAttackNode>>,
    span: Seq<Set<int>>,
    z: int,
    i: int,
    bound: int,
) -> bool {
    &&& tree.len() == 2 * pb.len
    &&& span.len() == 2 * pb.len
    &&& 1 <= z <= i <= 2 * z <= pb.len
    &&& forall|j: int| 0 <= j < z || i <= j < 2 * z ==> (#[trigger] tree[j]).len() == 0
    &&& forall|j: int| 0 <= j < z || i <= j < 2 * z ==> #[trigger] span[j] == Set::<int>::empty()
    &&& deep_ok(pb, tree, span, z)
    &&& forall|j: int| 2 * z <= j < 4 * z ==> list_ready((#[trigger] tree[j])@, bound)
    &&& apart(span, 2 * z)
    &&& forall|j: int| z <= j < i ==> #[trigger] made(tree, span, pb.len, j, bound)
}

/// The lists that wait for a phase are the start of the phase.
pub proof fn lemma_phase_start(
    pb: Problem,
    tree: Seq<Vec<TreeAttackNode>>,
    span: Seq<Set<int>>,
    z: int,
    bound: int,
)
    requires
        1 <= z,
        waiting(pb, tree, span, 2 * z, bound),
    ensures
        merging(pb, tree, span, z, z, bound),
{
}

/// One merge carries a phase on: the list `out`, merged from the lists at
/// `2 * i` and `2 * i + 1`, takes its place at `i`.
pub proof fn lemma_phase_step(
    pb: Problem,
    tree: Seq<Vec<TreeAttackNode>>,
    span: Seq<Set<int>>,
    z: int,
    idx: usize,
    bound: int,
    out: Vec<TreeAttackNode>,
)
    requires
        merging(pb, tree, span, z, idx as int, bound),
        idx < 2 * z,
        out.len() >= 1,
        strictly_sorted(out@),
        within(out@, 2 * bound),
        forall|k: int|
            0 <= k < out.len() ==> merged_ok(
                tree[2 * idx]@,
                tree[2 * idx + 1]@,
                idx,
                #[trigger] out[k],
            ),
    ensures
        deep_ok(
            pb,
            tree.update(idx as int, out),
            span.update(idx as int, span[2 * idx] + span[2 * idx + 1]),
            z,
        ),
        !pair_shares(tree, idx as int) ==> merging(
            pb,
            tree.update(idx as int, out),
            span.update(idx as int, span[2 * idx] + span[2 * idx + 1]),
            z,
            idx + 1,
            bound,
        ),
{
    let i = idx as int;
    let new_tree = tree.update(i, out);
    let new_span = span.update(i, span[2 * i] + span[2 * i + 1]);
    assert(span[2 * i].disjoint(span[2 * i + 1]));
    assert forall|j: int, k: int|
        z <= j < new_tree.len() && 0 <= k < new_tree[j].len() implies #[trigger] node_ok(
        pb,
        new_tree,
        new_span,
        j,
        new_tree[j][k],
    ) by {
        if j == i {
            assert(merged_ok(tree[2 * i]@, tree[2 * i + 1]@, idx, out[k]));
        } else {
            assert(node_ok(pb, tree, span, j, tree[j][k]));
        }
    }
    if !pair_shares(tree, i) {
        assert forall|j: int| z <= j < i + 1 implies #[trigger] made(
            new_tree,
            new_span,
            pb.len,
            j,
            bound,
        ) by {
            if j == i {
                assert forall|k: int| 0 <= k < out.len() implies home(#[trigger] out@[k], pb.len)
                    == i by {
                    assert(merged_ok(tree[2 * i]@, tree[2 * i + 1]@, idx, out[k]));
                }
            } else {
                assert(made(tree, span, pb.len, j, bound));
                assert(new_tree[j] == tree[j]);
                assert(new_tree[2 * j] == tree[2 * j]);
                assert(new_tree[2 * j + 1] == tree[2 * j + 1]);
            }
        }
        assert forall|j: int| 2 * z <= j < 4 * z implies list_ready(
            (#[trigger] new_tree[j])@,
            bound,
        ) by {
            assert(new_tree[j] == tree[j]);
        }
    }
}

/// Where a phase has made all its lists, they wait for the next phase.
pub proof fn lemma_phase_end(
    pb: Problem,
    tree: Seq<Vec<TreeAttackNode>>,
    span: Seq<Set<int>>,
    z: int,
    bound: int,
)
    requires
        merging(pb, tree, span, z, 2 * z, bound),
    ensures
        waiting(pb, tree, span, z, 2 * bound),
        in_place(tree, pb.len, z, 2 * bound),
{
    assert forall|j1: int, j2: int|
        z <= j1 < 2 * z && z <= j2 < 2 * z && j1 != j2 implies (#[trigger] span[j1]).disjoint(
        #[trigger] span[j2],
    ) by {
        assert(made(tree, span, pb.len, j1, bound));
        assert(made(tree, span, pb.len, j2, bound));
        assert(span[2 * j1].disjoint(span[2 * j2]));
        assert(span[2 * j1].disjoint(span[2 * j2 + 1]));
        assert(span[2 * j1 + 1].disjoint(span[2 * j2]));
        assert(span[2 * j1 + 1].disjoint(span[2 * j2 + 1]));
    }
    assert forall|j: int| z <= j < 2 * z implies made_at((#[trigger] tree[j])@, pb.len, j)
        && list_ready(tree[j]@, 2 * bound) by {
        assert(made(tree, span, pb.len, j, bound));
    }
}

/// The list at `j` is written by a merge of the two lists below it: it is
/// not empty and holds `cluster` nodes at most, in strictly growing order of
/// their sums, none of them negative or above twice `bound`; and each node
/// is an internal node made at `j`, which names a node of each list below
/// and has the sum or the difference of their sums, with the right one
/// reversed for a difference unless the left sum is the smaller.
pub open spec fn written(
    tree: Seq<Vec<TreeAttackNode>>,
    len: nat,
    j: int,
    bound: int,
    cluster: nat,
) -> bool {
    &&& list_ready(tree[j]@, 2 * bound)
    &&& made_at(tree[j]@, len, j)
    &&& tree[j].len() <= cluster
    &&& forall|k: int|
        0 <= k < tree[j].len() ==> merged_ok(
            tree[2 * j]@,
            tree[2 * j + 1]@,
            j as usize,
            #[trigger] tree[j][k],
        )
}

/// The lists written so far stay written where one more takes its place.
pub proof fn lemma_written_step(
    tree: Seq<Vec<TreeAttackNode>>,
    len: nat,
    z: int,
    idx: usize,
    bound: int,
    cluster: nat,
    out: Vec<TreeAttackNode>,
)
    requires
        1 <= z <= idx < 2 * z,
        4 * z <= tree.len(),
        1 <= out.len() <= cluster,
        strictly_sorted(out@),
        within(out@, 2 * bound),
        forall|k: int|
            0 <= k < out.len() ==> merged_ok(
                tree[2 * idx]@,
                tree[2 * idx + 1]@,
                idx,
                #[trigger] out[k],
            ),
        forall|j: int| z <= j < idx ==> #[trigger] written(tree, len, j, bound, cluster),
    ensures
        forall|j: int|
            z <= j < idx + 1 ==> #[trigger] written(
                tree.update(idx as int, out),
                len,
                j,
                bound,
                cluster,
            ),
{
    let i = idx as int;
    let new_tree = tree.update(i, out);
    assert forall|j: int| z <= j < i + 1 implies #[trigger] written(
        new_tree,
        len,
        j,
        bound,
        cluster,
    ) by {
        assert(new_tree[2 * j] == tree[2 * j]);
        assert(new_tree[2 * j + 1] == tree[2 * j + 1]);
        if j == i {
            assert(new_tree[j] == out);
            assert forall|k: int| 0 <= k < out.len() implies home(#[trigger] out@[k], len)
                == i by {
                assert(merged_ok(tree[2 * i]@, tree[2 * i + 1]@, idx, out[k]));
            }
            assert forall|k: int| 0 <= k < new_tree[j].len() implies merged_ok(
                new_tree[2 * j]@,
                new_tree[2 * j + 1]@,
                j as usize,
                #[trigger] new_tree[j][k],
            ) by {
                assert(merged_ok(tree[2 * i]@, tree[2 * i + 1]@, idx, out[k]));
            }
        } else {
            assert(written(tree, len, j, bound, cluster));
            assert(new_tree[j] == tree[j]);
        }
    }
}

/// The lists from `lo` up to twice `lo` of `new_tree` are those of
/// `old_tree`, each once, in the order of the sums of their first nodes,
/// lists with one first sum in the order that they had; and the lists from
/// twice `lo` on are as they were.
pub open spec fn in_order(
    old_tree: Seq<Vec<TreeAttackNode>>,
    new_tree: Seq<Vec<TreeAttackNode>>,
    lo: int,
) -> bool {
    &&& 1 <= lo
    &&& 2 * lo <= old_tree.len()
    &&& new_tree.len() == old_tree.len()
    &&& new_tree.subrange(lo, 2 * lo) == ordered(old_tree.subrange(lo, 2 * lo), first_sum())
    &&& new_tree.subrange(lo, 2 * lo).to_multiset() == old_tree.subrange(lo, 2 * lo).to_multiset()
    &&& rising(new_tree.subrange(lo, 2 * lo), first_sum())
    &&& forall|j: int| 2 * lo <= j < old_tree.len() ==> #[trigger] new_tree[j] == old_tree[j]
}

/// `new_tree` is `old_tree` with the lists from `lo` up to twice `lo` in
/// another order.
pub open spec fn resorted(
    old_tree: Seq<Vec<TreeAttackNode>>,
    new_tree: Seq<Vec<TreeAttackNode>>,
    lo: int,
) -> bool {
    &&& 1 <= lo
    &&& 2 * lo <= old_tree.len()
    &&& new_tree.len() == old_tree.len()
    &&& forall|j: int|
        0 <= j < lo || 2 * lo <= j < old_tree.len() ==> #[trigger] new_tree[j] == old_tree[j]
    &&& new_tree.subrange(lo, 2 * lo).to_multiset() == old_tree.subrange(lo, 2 * lo).to_multiset()
}

/// Each list of the new order is the list of the old order at the place
/// where it was made.
pub open spec fn traced(
    old_tree: Seq<Vec<TreeAttackNode>>,
    new_tree: Seq<Vec<TreeAttackNode>>,
    len: nat,
    lo: int,
) -> bool {
    forall|j: int|
        lo <= j < 2 * lo ==> {
            let h = home((#[trigger] new_tree[j])[0], len);
            lo <= h < 2 * lo && new_tree[j] == old_tree[h]
        }
}

/// The positions that the lists cover once they stand in another order:
/// each list covers what it covered where it was made.
pub open spec fn spans_after(
    old_span: Seq<Set<int>>,
    new_tree: Seq<Vec<TreeAttackNode>>,
    lo: int,
    len: nat,
) -> Seq<Set<int>> {
    Seq::new(
        old_span.len(),
        |j: int|
            if lo <= j < 2 * lo {
                old_span[home(new_tree[j][0], len)]
            } else {
                old_span[j]
            },
    )
}

/// Lists that stood where they were made can be traced back once they stand
/// in another order.
pub proof fn lemma_origin(
    old_tree: Seq<Vec<TreeAttackNode>>,
    new_tree: Seq<Vec<TreeAttackNode>>,
    len: nat,
    lo: int,
    bound: int,
)
    requires
        resorted(old_tree, new_tree, lo),
        in_place(old_tree, len, lo, bound),
    ensures
        traced(old_tree, new_tree, len, lo),
{
    let before = old_tree.subrange(lo, 2 * lo);
    let after = new_tree.subrange(lo, 2 * lo);
    assert forall|j: int| lo <= j < 2 * lo implies {
        let h = home((#[trigger] new_tree[j])[0], len);
        lo <= h < 2 * lo && new_tree[j] == old_tree[h]
    } by {
        lemma_permuted_member(before, after, j - lo);
        let t = choose|t: int| 0 <= t < before.len() && before[t] == after[j - lo];
        assert(old_tree[t + lo] == new_tree[j]);
        assert(made_at(old_tree[t + lo]@, len, t + lo));
        assert(list_ready(old_tree[t + lo]@, bound));
        assert(home(old_tree[t + lo]@[0], len) == t + lo);
    }
}

/// Lists that cover separate positions still do so in another order.
pub proof fn lemma_resorted_apart(
    old_tree: Seq<Vec<TreeAttackNode>>,
    old_span: Seq<Set<int>>,
    new_tree: Seq<Vec<TreeAttackNode>>,
    len: nat,
    lo: int,
    bound: int,
)
    requires
        resorted(old_tree, new_tree, lo),
        in_place(old_tree, len, lo, bound),
        traced(old_tree, new_tree, len, lo),
        old_span.len() == old_tree.len(),
        forall|j1: int, j2: int|
            lo <= j1 < 2 * lo && lo <= j2 < 2 * lo && j1 != j2 ==> (#[trigger] old_span[j1]).disjoint(
                #[trigger] old_span[j2],
            ),
    ensures
        forall|j1: int, j2: int|
            lo <= j1 < 2 * lo && lo <= j2 < 2 * lo && j1 != j2 ==> (#[trigger] spans_after(
                old_span,
                new_tree,
                lo,
                len,
            )[j1]).disjoint(#[trigger] spans_after(old_span, new_tree, lo, len)[j2]),
{
    let before = old_tree.subrange(lo, 2 * lo);
    let after = new_tree.subrange(lo, 2 * lo);
    let new_span = spans_after(old_span, new_tree, lo, len);
    assert(before.no_duplicates()) by {
        assert forall|a: int, b: int|
            0 <= a < before.len() && 0 <= b < before.len() && a != b implies before[a]
            != before[b] by {
            assert(made_at(old_tree[a + lo]@, len, a + lo));
            assert(made_at(old_tree[b + lo]@, len, b + lo));
            assert(list_ready(old_tree[a + lo]@, bound));
            assert(list_ready(old_tree[b + lo]@, bound));
            assert(home(old_tree[a + lo]@[0], len) == a + lo);
            assert(home(old_tree[b + lo]@[0], len) == b + lo);
        }
    }
    before.lemma_multiset_has_no_duplicates();
    after.lemma_multiset_has_no_duplicates_conv();
    assert forall|j1: int, j2: int|
        lo <= j1 < 2 * lo && lo <= j2 < 2 * lo && j1 != j2 implies (#[trigger] new_span[j1]).disjoint(
        #[trigger] new_span[j2],
    ) by {
        let h1 = home(new_tree[j1][0], len);
        let h2 = home(new_tree[j2][0], len);
        assert(new_tree[j1] == old_tree[h1]);
        assert(new_tree[j2] == old_tree[h2]);
        assert(after[j1 - lo] == new_tree[j1]);
        assert(after[j2 - lo] == new_tree[j2]);
        assert(after[j1 - lo] != after[j2 - lo]);
        assert(h1 != h2);
        assert(old_span[h1].disjoint(old_span[h2]));
    }
}

/// Sound nodes stay sound where their lists stand in another order.
pub proof fn lemma_resorted_sound(
    pb: Problem,
    old_tree: Seq<Vec<TreeAttackNode>>,
    old_span: Seq<Set<int>>,
    new_tree: Seq<Vec<TreeAttackNode>>,
    lo: int,
    bound: int,
)
    requires
        resorted(old_tree, new_tree, lo),
        in_place(old_tree, pb.len, lo, bound),
        traced(old_tree, new_tree, pb.len, lo),
        deep_ok(pb, old_tree, old_span, lo),
    ensures
        deep_ok(pb, new_tree, spans_after(old_span, new_tree, lo, pb.len), lo),
{
    let len = pb.len;
    let new_span = spans_after(old_span, new_tree, lo, len);
    assert forall|j: int, k: int|
        lo <= j < new_tree.len() && 0 <= k < new_tree[j].len() implies #[trigger] node_ok(
        pb,
        new_tree,
        new_span,
        j,
        new_tree[j][k],
    ) by {
        let h = if j < 2 * lo {
            home(new_tree[j][0], len)
        } else {
            j
        };
        assert(new_tree[j] == old_tree[h]);
        assert(new_span[j] == old_span[h]);
        assert(node_ok(pb, old_tree, old_span, h, old_tree[h][k]));
        match new_tree[j][k] {
            TreeAttackNode::Leaf(n) => {},
            TreeAttackNode::Internal(n) => {
                if j < 2 * lo {
                    assert(made_at(old_tree[h]@, len, h));
                    assert(n.idx == h);
                }
                assert(new_tree[2 * n.idx] == old_tree[2 * n.idx]);
                assert(new_tree[2 * n.idx + 1] == old_tree[2 * n.idx + 1]);
                assert(new_span[2 * n.idx] == old_span[2 * n.idx]);
                assert(new_span[2 * n.idx + 1] == old_span[2 * n.idx + 1]);
            },
        }
    }
}

} // verus!
