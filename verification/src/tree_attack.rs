//! Tree search for a collision under one polynomial hash: a tournament of
//! merges over the choices of word pairs at each position, and its lifting
//! to several hashes.

use crate::choice::{
    choice_at, follows, is_built, is_tree_answer, lemma_chosen_are_picked, lemma_delta_swap,
    lemma_multiples_add, lemma_pair_total, lemma_total_blank, lemma_total_update,
    lemma_tree_answer, pair_total, picked, total, written_over,
};
use crate::frontier::Frontier;
use crate::hash::{collide, hash_of, hash_word, lemma_pow_unfold_last, poly};
use crate::lift::{
    collide_under_first, lemma_lift_step, lemma_words_spell_themselves, positive,
    words_collide_under_first,
};
use crate::lists::{
    has_sum, lemma_has_sum_push, lemma_permuted_member, lemma_zeros_share, sort_nodes, sorted,
    strictly_sorted,
};
use crate::merge::{lemma_top, merge, share_a_sum};
use crate::min_heap::{max_capacity, Entry};
use crate::order::{first_sum, lemma_ordered_multiset, order_lists, ordered};
use crate::tournament::{
    finds, finds_first_with, finds_with, hashes, head, leaf_level, lemma_leaf_sums, lemma_merged, lemma_ordered_sums,
    lemma_round_merges, lemma_round_shares, level, level_sums, merged_at, next_level, settled,
    problem_of, shares_in, sums,
};
use crate::power::{lemma_two_pow_bound, lemma_two_pow_positive, power_of_two, two_pow};
use crate::random::{gen_index, thread_rng};
use crate::tree_invariant::{
    deep_ok, home, in_order, in_place, leaf_list, lemma_leaves_sound, lemma_leaves_wait,
    lemma_origin, lemma_phase_end, lemma_phase_start, lemma_phase_step, lemma_resorted_apart,
    lemma_resorted_sound, lemma_twins_make_zero, lemma_written_step, list_ready, made, made_at,
    merging, node_ok, pair_leaf, pair_leaves, pair_shares, pair_sum, signed, spans_after, traced,
    twins, waiting, written, apart, Problem,
};
use crate::words::{
    distinct_words, equal_width, has_equal_width, lemma_spell_len, lemma_spell_push, spell,
    spelled, texts, valid_picks, words_collide,
};
use vstd::arithmetic::div_mod::{lemma_mod_equivalence, lemma_mul_mod_noop_general};
use vstd::arithmetic::power::{lemma_pow0, lemma_pow_positive, pow};
use vstd::multiset::Multiset;
use vstd::prelude::*;
use vstd::string::*;

verus! {

/// A node that combines one node of each of two child lists.
#[derive(Clone, Copy)]
pub struct TreeAttackInternalNode {
    pub sum: i128,
    pub idx: usize,
    pub rev_left: bool,
    pub rev_right: bool,
    pub pos_left: usize,
    pub pos_right: usize,
}

/// A node that places one word in the first string and another in the second,
/// at position `idx`.
#[derive(Clone, Copy)]
pub struct TreeAttackLeafNode {
    pub sum: i128,
    pub idx: usize,
    pub word1: usize,
    pub word2: usize,
}

/// A node of the tree: a choice of words at one position, or a combination
/// of two nodes further down.
#[derive(Clone, Copy)]
pub enum TreeAttackNode {
    Internal(TreeAttackInternalNode),
    Leaf(TreeAttackLeafNode),
}

/// The sum of a leaf: the difference of the two word hashes, times the power
/// of the base that belongs to the position, as a residue.
pub open spec fn leaf_sum(hash1: int, hash2: int, pot: int, module: int) -> int {
    ((hash1 + module - hash2) % module) * pot % module
}

impl TreeAttackNode {
    /// The sum that the node stands for.
    pub open spec fn sum(self) -> int {
        match self {
            TreeAttackNode::Internal(n) => n.sum as int,
            TreeAttackNode::Leaf(n) => n.sum as int,
        }
    }

    /// The internal node at tree position `idx` that combines the node
    /// `pos_left` of the left child list with the node `pos_right` of the
    /// right one.
    pub fn new_internal(
        sum: i128,
        idx: usize,
        rev_left: bool,
        rev_right: bool,
        pos_left: usize,
        pos_right: usize,
    ) -> (node: TreeAttackNode)
        ensures
            node == TreeAttackNode::Internal(
                (TreeAttackInternalNode { sum, idx, rev_left, rev_right, pos_left, pos_right }),
            ),
    {
        TreeAttackNode::Internal(
            TreeAttackInternalNode { sum, idx, rev_left, rev_right, pos_left, pos_right },
        )
    }

    /// The leaf for the words `word1` and `word2` at position `idx`, from the
    /// hashes of the two words and the power of the base for the position.
    pub fn new_leaf(
        idx: usize,
        word1: usize,
        word2: usize,
        hash1: u64,
        hash2: u64,
        module: u64,
        pot: u64,
    ) -> (node: TreeAttackNode)
        requires
            hash1 < module,
            hash2 < module,
            pot < module,
        ensures
            node == TreeAttackNode::Leaf(
                (TreeAttackLeafNode {
                    sum: leaf_sum(hash1 as int, hash2 as int, pot as int, module as int) as i128,
                    idx,
                    word1,
                    word2,
                }),
            ),
            0 <= leaf_sum(hash1 as int, hash2 as int, pot as int, module as int) < module,
    {
        let hash: u128 = (hash1 as u128 + module as u128 - hash2 as u128) % (module as u128);
        assert(hash * pot <= 0xffff_ffff_ffff_ffff * 0xffff_ffff_ffff_ffff) by (nonlinear_arith)
            requires
                hash <= 0xffff_ffff_ffff_ffff,
                pot <= 0xffff_ffff_ffff_ffff,
        ;
        let sum: u128 = hash * (pot as u128) % (module as u128);
        TreeAttackNode::Leaf(TreeAttackLeafNode { sum: sum as i128, idx, word1, word2 })
    }

    /// The sum that the node stands for.
    pub fn get_sum(&self) -> (sum: i128)
        ensures
            sum == self.sum(),
    {
        match self {
            TreeAttackNode::Internal(n) => n.sum,
            TreeAttackNode::Leaf(n) => n.sum,
        }
    }
}

/// Keeps, of each run of nodes with one sum, the first.
fn dedup(nodes: &Vec<TreeAttackNode>) -> (kept: Vec<TreeAttackNode>)
    requires
        sorted(nodes@),
    ensures
        strictly_sorted(kept@),
        nodes.len() > 0 ==> kept.len() > 0,
        forall|k: int| 0 <= k < kept.len() ==> nodes@.contains(#[trigger] kept[k]),
        forall|k: int| 0 <= k < nodes.len() ==> has_sum(kept@, (#[trigger] nodes[k]).sum()),
{
    let mut kept: Vec<TreeAttackNode> = Vec::new();
    let mut k: usize = 0;
    while k < nodes.len()
        invariant
            k <= nodes.len(),
            kept.len() <= k,
            sorted(nodes@),
            strictly_sorted(kept@),
            k > 0 ==> kept.len() > 0 && kept[kept.len() - 1].sum() == nodes[k - 1].sum(),
            forall|i: int| 0 <= i < kept.len() ==> nodes@.contains(#[trigger] kept[i]),
            forall|t: int| 0 <= t < k ==> has_sum(kept@, (#[trigger] nodes[t]).sum()),
        decreases nodes.len() - k,
    {
        let node = nodes[k];
        let ghost before = kept@;
        if kept.len() == 0 || kept[kept.len() - 1].get_sum() != node.get_sum() {
            kept.push(node);
            proof {
                assert(nodes@[k as int] == node);
                assert forall|a: int, b: int| 0 <= a < b < kept.len() implies kept[a].sum()
                    < kept[b].sum() by {
                    if b == kept.len() - 1 {
                        let last = before.len() - 1;
                        assert(before[a].sum() <= before[last].sum());
                        assert(nodes[k - 1].sum() <= nodes[k as int].sum());
                    } else {
                        assert(before[a].sum() < before[b].sum());
                    }
                }
                assert forall|t: int| 0 <= t < k + 1 implies has_sum(
                    kept@,
                    (#[trigger] nodes[t]).sum(),
                ) by {
                    if t < k {
                        assert(has_sum(before, nodes[t].sum()));
                        let i = choose|i: int|
                            0 <= i < before.len() && (#[trigger] before[i]).sum() == nodes[t].sum();
                        assert(kept[i] == before[i]);
                    } else {
                        assert(kept[kept.len() - 1].sum() == nodes[t].sum());
                    }
                }
            }
        } else {
            proof {
                assert forall|t: int| 0 <= t < k + 1 implies has_sum(
                    kept@,
                    (#[trigger] nodes[t]).sum(),
                ) by {
                    if t == k {
                        assert(kept[kept.len() - 1].sum() == nodes[t].sum());
                    }
                }
            }
        }
        k = k + 1;
    }
    kept
}

/// The leaves for position `pos`: one for every two different words, in the
/// order of their sums, of which none is kept twice. `word_hash` holds the
/// hash of each word, and `pot` the residue of the power of the base that
/// belongs to the position.
pub fn make_leaves(word_hash: &Vec<u64>, module: u64, pos: usize, pot: u64) -> (leaves: Vec<
    TreeAttackNode,
>)
    requires
        pot < module,
        forall|i: int| 0 <= i < word_hash.len() ==> #[trigger] word_hash[i] < module,
    ensures
        strictly_sorted(leaves@),
        word_hash.len() >= 2 ==> leaves.len() > 0,
        pair_leaves(word_hash@, module as int, pos, pot as int, leaves@),
        forall|a: int, c: int|
            0 <= a < word_hash.len() && 0 <= c < word_hash.len() && a != c ==> has_sum(
                leaves@,
                #[trigger] pair_sum(word_hash@, a, c, pot as int, module as int),
            ),
{
    let ghost wh = word_hash@;
    let ghost m = module as int;
    let n = word_hash.len();
    let mut leaves: Vec<TreeAttackNode> = Vec::new();
    let mut a: usize = 0;
    while a < n
        invariant
            wh == word_hash@,
            m == module as int,
            n == word_hash.len(),
            a <= n,
            pot < module,
            forall|i: int| 0 <= i < word_hash.len() ==> #[trigger] word_hash[i] < module,
            pair_leaves(wh, m, pos, pot as int, leaves@),
            a > 0 && n >= 2 ==> leaves.len() > 0,
            forall|x: int, y: int|
                0 <= x < a && 0 <= y < n && x != y ==> has_sum(
                    leaves@,
                    #[trigger] pair_sum(wh, x, y, pot as int, m),
                ),
        decreases n - a,
    {
        let mut b: usize = 0;
        while b < n
            invariant
                wh == word_hash@,
                m == module as int,
                n == word_hash.len(),
                a < n,
                b <= n,
                pot < module,
                forall|i: int| 0 <= i < word_hash.len() ==> #[trigger] word_hash[i] < module,
                pair_leaves(wh, m, pos, pot as int, leaves@),
                (a > 0 && n >= 2) || b > 1 ==> leaves.len() > 0,
                forall|x: int, y: int|
                    0 <= x < a && 0 <= y < n && x != y ==> has_sum(
                        leaves@,
                        #[trigger] pair_sum(wh, x, y, pot as int, m),
                    ),
                forall|y: int|
                    0 <= y < b && y != a ==> has_sum(
                        leaves@,
                        #[trigger] pair_sum(wh, a as int, y, pot as int, m),
                    ),
            decreases n - b,
        {
            if a != b {
                let leaf = TreeAttackNode::new_leaf(
                    pos,
                    a,
                    b,
                    word_hash[a],
                    word_hash[b],
                    module,
                    pot,
                );
                let ghost before = leaves@;
                leaves.push(leaf);
                proof {
                    assert(leaf.sum() == pair_sum(wh, a as int, b as int, pot as int, m));
                    assert forall|k: int| 0 <= k < leaves.len() implies pair_leaf(
                        wh,
                        m,
                        pos,
                        pot as int,
                        #[trigger] leaves[k],
                    ) by {
                        if k < before.len() {
                            assert(leaves[k] == before[k]);
                        }
                    }
                    assert forall|x: int, y: int|
                        0 <= x < a && 0 <= y < n && x != y implies has_sum(
                        leaves@,
                        #[trigger] pair_sum(wh, x, y, pot as int, m),
                    ) by {
                        lemma_has_sum_push(before, leaf, pair_sum(wh, x, y, pot as int, m));
                    }
                    assert forall|y: int| 0 <= y < b + 1 && y != a implies has_sum(
                        leaves@,
                        #[trigger] pair_sum(wh, a as int, y, pot as int, m),
                    ) by {
                        lemma_has_sum_push(before, leaf, pair_sum(wh, a as int, y, pot as int, m));
                    }
                }
            }
            b = b + 1;
        }
        a = a + 1;
    }
    let ghost unsorted = leaves@;
    sort_nodes(&mut leaves);
    let kept = dedup(&leaves);
    proof {
        unsorted.to_multiset_ensures();
        leaves@.to_multiset_ensures();
        assert forall|k: int| 0 <= k < kept.len() implies pair_leaf(
            wh,
            m,
            pos,
            pot as int,
            #[trigger] kept[k],
        ) by {
            assert(leaves@.contains(kept[k]));
            let t = choose|t: int| 0 <= t < leaves.len() && leaves[t] == kept[k];
            lemma_permuted_member(unsorted, leaves@, t);
            let u = choose|u: int| 0 <= u < unsorted.len() && unsorted[u] == kept[k];
            assert(pair_leaf(wh, m, pos, pot as int, unsorted[u]));
        }
        assert forall|x: int, y: int| 0 <= x < n && 0 <= y < n && x != y implies has_sum(
            kept@,
            #[trigger] pair_sum(wh, x, y, pot as int, m),
        ) by {
            let sum = pair_sum(wh, x, y, pot as int, m);
            assert(has_sum(unsorted, sum));
            let u = choose|u: int| 0 <= u < unsorted.len() && (#[trigger] unsorted[u]).sum() == sum;
            lemma_permuted_member(leaves@, unsorted, u);
            let t = choose|t: int| 0 <= t < leaves.len() && leaves@[t] == unsorted[u];
            assert(has_sum(kept@, leaves[t].sum()));
        }
    }
    kept
}

/// The largest number of nodes that a list may be asked to keep.
pub open spec fn max_cluster_size() -> int {
    max_capacity() / 3
}

/// The state of one search.
struct TreeAttack<'a> {
    alphabet: &'a Vec<String>,
    word_hash: Vec<u64>,
    word_len: usize,
    base: u64,
    module: u64,
    cluster_size: usize,
    tree: Vec<Vec<TreeAttackNode>>,
    frontier: Frontier,
    span: Ghost<Seq<Set<int>>>,
}

impl<'a> TreeAttack<'a> {
    /// The search for strings of `len` words.
    spec fn problem(&self, len: nat) -> Problem {
        Problem {
            words: texts(self.alphabet@),
            base: self.base as int,
            module: self.module as int,
            len,
        }
    }

    /// What a search is set up with, and never changes.
    spec fn setup(&self) -> (&'a Vec<String>, Seq<u64>, usize, u64, u64, usize) {
        (
            self.alphabet,
            self.word_hash@,
            self.word_len,
            self.base,
            self.module,
            self.cluster_size,
        )
    }

    /// The set-up is sound: two words or more of one width, a positive
    /// module, room for a node at least, and the hash of each word at hand.
    spec fn configured(&self) -> bool {
        &&& self.alphabet.len() >= 2
        &&& equal_width(texts(self.alphabet@))
        &&& self.module > 0
        &&& 1 <= self.cluster_size <= max_cluster_size()
        &&& self.word_len == self.alphabet[0]@.len()
        &&& self.word_hash.len() == self.alphabet.len()
        &&& forall|i: int|
            0 <= i < self.alphabet.len() ==> #[trigger] self.word_hash[i] as int == hash_of(
                self.alphabet[i]@,
                self.base as int,
                self.module as int,
            )
    }

    /// A search that is set up, with the hash of each word computed, and
    /// nothing in its tree, in its heap or on its record of places. It asks
    /// for a word to take the width from, a module to reduce by, and a
    /// cluster size that the heap can be allocated for.
    fn new(base: u64, module: u64, cluster_size: usize, alphabet: &'a Vec<String>) -> (attack:
        TreeAttack<'a>)
        requires
            alphabet.len() >= 1,
            module > 0,
            cluster_size <= max_cluster_size(),
        ensures
            attack.alphabet == alphabet,
            attack.base == base,
            attack.module == module,
            attack.cluster_size == cluster_size,
            attack.word_len == alphabet[0]@.len(),
            attack.word_hash.len() == alphabet.len(),
            forall|i: int|
                0 <= i < alphabet.len() ==> #[trigger] attack.word_hash[i] as int == hash_of(
                    alphabet[i]@,
                    base as int,
                    module as int,
                ),
            attack.tree@.len() == 0,
            attack.span@.len() == 0,
            attack.frontier.entries() == Multiset::<Entry>::empty(),
            forall|pl: usize, pr: usize, is_sum: bool| !attack.frontier.marked(pl, pr, is_sum),
            alphabet.len() >= 2 && equal_width(texts(alphabet@)) && cluster_size >= 1
                ==> attack.configured(),
    {
        let mut word_hash: Vec<u64> = Vec::with_capacity(alphabet.len());
        let mut i: usize = 0;
        while i < alphabet.len()
            invariant
                module > 0,
                i <= alphabet.len(),
                word_hash.len() == i,
                forall|k: int|
                    0 <= k < i ==> #[trigger] word_hash[k] as int == hash_of(
                        alphabet[k]@,
                        base as int,
                        module as int,
                    ),
            decreases alphabet.len() - i,
        {
            word_hash.push(hash_word(&alphabet[i], base, module));
            i = i + 1;
        }
        TreeAttack {
            alphabet,
            word_hash,
            word_len: alphabet[0].as_str().unicode_len(),
            base,
            module,
            cluster_size,
            tree: Vec::new(),
            frontier: Frontier::new(cluster_size),
            span: Ghost(Seq::empty()),
        }
    }

    /// The leaves stand at the lower half of the tree, one list for each
    /// position, and the upper half is empty.
    spec fn leaves_ready(&self, len: nat) -> bool {
        &&& self.tree.len() == 2 * len
        &&& self.span@.len() == 2 * len
        &&& forall|j: int| 0 <= j < len ==> (#[trigger] self.tree[j]).len() == 0
        &&& forall|j: int| 0 <= j < len ==> #[trigger] self.span@[j] == Set::<int>::empty()
        &&& forall|j: int|
            len <= j < 2 * len ==> leaf_list(self.problem(len), (#[trigger] self.tree[j])@, j - len)
                && self.span@[j] == set![j - len]
    }

    /// The lists at the tree positions from `lo` up to twice `lo` wait to be
    /// merged.
    spec fn level_ready(&self, len: nat, lo: int, bound: int) -> bool {
        waiting(self.problem(len), self.tree@, self.span@, lo, bound)
    }

    /// The lists that wait stand where they were made.
    spec fn level_in_place(&self, len: nat, lo: int) -> bool {
        forall|j: int| lo <= j < 2 * lo ==> made_at((#[trigger] self.tree[j])@, len, j)
    }

    /// Merges the lists of one level in pairs, after ordering them by the
    /// sums of their first nodes: the lists at `2 * i` and `2 * i + 1` make
    /// the list at `i`, for `i` from two to the power of `p` on. The phase
    /// ends at the first pair of lists that share a sum, which makes a node
    /// of sum zero, and returns its place. That node reverses its right
    /// child.
    fn run_phase(&mut self, p: usize, Ghost(len): Ghost<nat>, Ghost(bound): Ghost<int>) -> (found:
        Option<usize>)
        requires
            old(self).configured(),
            p <= 10,
            len <= 0x800,
            old(self).level_ready(len, 2 * (two_pow(p as nat) as int), bound),
            old(self).level_in_place(len, 2 * (two_pow(p as nat) as int)),
            2 * bound <= i128::MAX,
        ensures
            final(self).configured(),
            final(self).setup() == old(self).setup(),
            final(self).tree.len() == 2 * len,
            deep_ok(
                final(self).problem(len),
                final(self).tree@,
                final(self).span@,
                two_pow(p as nat) as int,
            ),
            traced(old(self).tree@, final(self).tree@, len, 2 * (two_pow(p as nat) as int)),
            in_order(old(self).tree@, final(self).tree@, 2 * (two_pow(p as nat) as int)),
            forall|j: int|
                0 <= j < two_pow(p as nat) ==> #[trigger] final(self).tree[j] == old(self).tree[j],
            forall|j: int|
                two_pow(p as nat) <= j < (match found {
                    Some(i) => i + 1,
                    None => 2 * (two_pow(p as nat) as int),
                }) ==> #[trigger] written(
                    final(self).tree@,
                    len,
                    j,
                    bound,
                    final(self).cluster_size as nat,
                ),
            found is Some <==> shares_in(
                level_sums(old(self).tree@, 2 * (two_pow(p as nat) as int)),
            ),
            found is None ==> level_sums(final(self).tree@, two_pow(p as nat) as int)
                == next_level(
                level_sums(old(self).tree@, 2 * (two_pow(p as nat) as int)),
                final(self).cluster_size as nat,
            ),
            match found {
                Some(i) => {
                    &&& two_pow(p as nat) <= i < 2 * two_pow(p as nat)
                    &&& final(self).tree[i as int].len() == 1
                    &&& final(self).tree[i as int][0].sum() == 0
                    &&& final(self).tree[i as int][0] matches TreeAttackNode::Internal(n)
                        && !n.rev_left && n.rev_right
                    &&& pair_shares(final(self).tree@, i as int)
                    &&& forall|j: int|
                        two_pow(p as nat) <= j < i ==> !#[trigger] pair_shares(final(self).tree@, j)
                },
                None => {
                    &&& final(self).level_ready(len, two_pow(p as nat) as int, 2 * bound)
                    &&& final(self).level_in_place(len, two_pow(p as nat) as int)
                    &&& forall|j: int|
                        two_pow(p as nat) <= j < 2 * two_pow(p as nat) ==> !#[trigger] pair_shares(
                            final(self).tree@,
                            j,
                        )
                },
            },
    {
        let ghost pb = self.problem(len);
        let z = power_of_two(p);
        let ghost lists = level_sums(self.tree@, 2 * z);
        self.sort_level(2 * z, Ghost(len), Ghost(bound));
        proof {
            lemma_phase_start(pb, self.tree@, self.span@, z as int, bound);
        }
        let mut i: usize = z;
        while i < 2 * z
            invariant
                lists.len() == 2 * z,
                lists == level_sums(old(self).tree@, 2 * z),
                level_sums(self.tree@, 2 * z) == ordered(lists, head()),
                forall|j: int| z <= j < i ==> #[trigger] merged_at(
                    self.tree@,
                    j,
                    self.cluster_size as nat,
                ),
                traced(old(self).tree@, self.tree@, len, 2 * z),
                in_order(old(self).tree@, self.tree@, 2 * z),
                forall|j: int| 0 <= j < z ==> #[trigger] self.tree[j] == old(self).tree[j],
                forall|j: int|
                    z <= j < i ==> #[trigger] written(
                        self.tree@,
                        len,
                        j,
                        bound,
                        self.cluster_size as nat,
                    ),
                self.configured(),
                self.setup() == old(self).setup(),
                pb == self.problem(len),
                len <= 0x800,
                z == two_pow(p as nat),
                2 * bound <= i128::MAX,
                merging(pb, self.tree@, self.span@, z as int, i as int, bound),
            decreases 2 * z - i,
        {
            let l = 2 * i;
            let r = 2 * i + 1;
            let ghost tree_before = self.tree@;
            let ghost span_before = self.span@;
            assert(list_ready(self.tree@[l as int]@, bound));
            assert(list_ready(self.tree@[r as int]@, bound));
            proof {
                lemma_top(self.tree@[l as int]@, self.tree@[l as int]@.len() - 1);
                lemma_top(self.tree@[r as int]@, self.tree@[r as int]@.len() - 1);
                assert(self.tree@[l as int]@.len() == self.tree@[l as int].len());
                assert(self.tree@[r as int]@.len() == self.tree@[r as int].len());
            }
            let (out, found) = merge(
                &self.tree[l],
                &self.tree[r],
                i,
                self.cluster_size,
                &mut self.frontier,
            );
            proof {
                lemma_phase_step(pb, tree_before, span_before, z as int, i, bound, out);
                lemma_written_step(
                    tree_before,
                    len,
                    z as int,
                    i,
                    bound,
                    self.cluster_size as nat,
                    out,
                );
            }
            self.tree[i] = out;
            self.span = Ghost(
                span_before.update(i as int, span_before[l as int] + span_before[r as int]),
            );
            assert(self.tree@ == tree_before.update(i as int, out));
            proof {
                assert(level_sums(self.tree@, 2 * z) =~= level_sums(tree_before, 2 * z));
                assert(self.tree@.subrange(2 * z, 4 * z) =~= tree_before.subrange(2 * z, 4 * z));
                assert forall|j: int| 4 * z <= j < self.tree@.len() implies #[trigger] self.tree@[j]
                    == old(self).tree@[j] by {
                    assert(self.tree@[j] == tree_before[j]);
                }
                assert forall|j: int| 0 <= j < z implies #[trigger] self.tree@[j] == old(
                    self,
                ).tree@[j] by {
                    assert(self.tree@[j] == tree_before[j]);
                }
                assert forall|j: int| z <= j < i implies #[trigger] merged_at(
                    self.tree@,
                    j,
                    self.cluster_size as nat,
                ) by {
                    assert(merged_at(tree_before, j, self.cluster_size as nat));
                    assert(self.tree@[j] == tree_before[j]);
                    assert(self.tree@[2 * j] == tree_before[2 * j]);
                    assert(self.tree@[2 * j + 1] == tree_before[2 * j + 1]);
                }
                if !found {
                    lemma_merged(
                        tree_before[l as int]@,
                        tree_before[r as int]@,
                        out@,
                        i,
                        self.cluster_size as nat,
                    );
                    assert(self.tree@[l as int] == tree_before[l as int]);
                    assert(self.tree@[r as int] == tree_before[r as int]);
                    assert(merged_at(self.tree@, i as int, self.cluster_size as nat));
                }
                assert forall|j: int| 2 * z <= j < 4 * z implies {
                    let h = home((#[trigger] self.tree@[j])[0], len);
                    2 * z <= h < 4 * z && self.tree@[j] == old(self).tree@[h]
                } by {
                    assert(self.tree@[j] == tree_before[j]);
                }
            }
            if found {
                proof {
                    assert(self.tree@[l as int] == tree_before[l as int]);
                    assert(self.tree@[r as int] == tree_before[r as int]);
                    assert forall|j: int| z <= j < i implies !#[trigger] pair_shares(
                        self.tree@,
                        j,
                    ) by {
                        assert(made(tree_before, span_before, len, j, bound));
                        assert(self.tree@[2 * j] == tree_before[2 * j]);
                        assert(self.tree@[2 * j + 1] == tree_before[2 * j + 1]);
                    }
                    lemma_round_shares(self.tree@, lists, z as int, i as int);
                }
                return Some(i);
            }
            i = i + 1;
        }
        proof {
            lemma_phase_end(pb, self.tree@, self.span@, z as int, bound);
            assert forall|j: int| z <= j < 2 * z implies !#[trigger] pair_shares(
                self.tree@,
                j,
            ) by {
                assert(made(self.tree@, self.span@, len, j, bound));
            }
            assert forall|j: int| z <= j < 2 * z implies #[trigger] settled(
                self.tree@,
                j,
                self.cluster_size as nat,
            ) by {
                assert(!pair_shares(self.tree@, j));
                assert(merged_at(self.tree@, j, self.cluster_size as nat));
            }
            lemma_round_merges(self.tree@, lists, z as int, self.cluster_size as nat);
        }
        None
    }

    /// Makes the tree for strings of `len` words: a list of leaves for each
    /// position, one leaf for every two different words, in the order of
    /// their sums and without a sum twice.
    fn init_attack(&mut self, len: usize)
        requires
            old(self).configured(),
            1 <= len <= 0x800,
        ensures
            final(self).configured(),
            final(self).setup() == old(self).setup(),
            final(self).leaves_ready(len as nat),
            level_sums(final(self).tree@, len as int) == leaf_level(
                final(self).problem(len as nat),
            ),
            twins(texts(final(self).alphabet@), final(self).base as int, final(self).module as int)
                ==> forall|j: int|
                len <= j < 2 * len ==> has_sum((#[trigger] final(self).tree[j])@, 0),
    {
        let ghost pb = self.problem(len as nat);
        self.tree.clear();
        while self.tree.len() < 2 * len
            invariant
                1 <= len <= 0x800,
                self.configured(),
                self.setup() == old(self).setup(),
                self.tree.len() <= 2 * len,
                forall|j: int| 0 <= j < self.tree.len() ==> (#[trigger] self.tree[j]).len() == 0,
            decreases 2 * len - self.tree.len(),
        {
            self.tree.push(Vec::new());
        }
        self.span = Ghost(Seq::new((2 * len) as nat, |j: int| Set::<int>::empty()));
        let mut pot: u64 = (1 % self.module);
        proof {
            lemma_pow0(self.base as int);
            assert(pb.width() * (len - len) == 0) by (nonlinear_arith);
        }
        let mut i: usize = len;
        while i > 0
            invariant
                1 <= len <= 0x800,
                i <= len,
                self.configured(),
                self.setup() == old(self).setup(),
                pb == self.problem(len as nat),
                self.tree.len() == 2 * len,
                self.span@.len() == 2 * len,
                forall|j: int| 0 <= j < len ==> (#[trigger] self.tree[j]).len() == 0,
                forall|j: int| 0 <= j < len ==> #[trigger] self.span@[j] == Set::<int>::empty(),
                forall|j: int|
                    len + i <= j < 2 * len ==> leaf_list(pb, (#[trigger] self.tree[j])@, j - len)
                        && self.span@[j] == set![j - len],
                twins(pb.words, pb.base, pb.module) ==> forall|j: int|
                    len + i <= j < 2 * len ==> has_sum((#[trigger] self.tree[j])@, 0),
                forall|j: int|
                    len + i <= j < 2 * len ==> sums((#[trigger] self.tree[j])@) == leaf_level(
                        pb,
                    )[j - len],
                pot < self.module,
                pot as int == pow(self.base as int, (pb.width() * (len - i)) as nat)
                    % self.module as int,
            decreases i,
        {
            i = i - 1;
            assert(pb.weight(i as int) == pow(self.base as int, (pb.width() * (len - i - 1)) as nat));
            let leaves = make_leaves(&self.word_hash, self.module, i, pot);
            proof {
                lemma_leaves_sound(pb, self.word_hash@, leaves@, i, pot as int);
                if twins(pb.words, pb.base, pb.module) {
                    lemma_twins_make_zero(pb, self.word_hash@, leaves@, pot as int);
                }
                lemma_leaf_sums(self.word_hash@, self.module as int, i, pot as int, leaves@);
                assert(self.word_hash@.map_values(|h: u64| h as int) =~= hashes(pb));
                assert(sums(leaves@) == leaf_level(pb)[i as int]);
            }
            let ghost tree_before = self.tree@;
            let ghost span_before = self.span@;
            self.tree[i + len] = leaves;
            self.span = Ghost(self.span@.update(i + len, set![i as int]));
            proof {
                assert forall|j: int| len + i <= j < 2 * len implies leaf_list(
                    pb,
                    (#[trigger] self.tree[j])@,
                    j - len,
                ) && self.span@[j] == set![j - len] by {
                    if j != i + len {
                        assert(self.tree[j] == tree_before[j]);
                        assert(self.span@[j] == span_before[j]);
                    }
                }
                assert forall|j: int| 0 <= j < len implies (#[trigger] self.tree[j]).len()
                    == 0 by {
                    assert(self.tree[j] == tree_before[j]);
                }
                if twins(pb.words, pb.base, pb.module) {
                    assert forall|j: int| len + i <= j < 2 * len implies has_sum(
                        (#[trigger] self.tree[j])@,
                        0,
                    ) by {
                        if j != i + len {
                            assert(self.tree[j] == tree_before[j]);
                        }
                    }
                }
                assert forall|j: int| len + i <= j < 2 * len implies sums(
                    (#[trigger] self.tree[j])@,
                ) == leaf_level(pb)[j - len] by {
                    if j != i + len {
                        assert(self.tree[j] == tree_before[j]);
                    }
                }
            }
            let mut k: usize = 0;
            while k < self.word_len
                invariant
                    self.configured(),
                    pb == self.problem(len as nat),
                    i < len,
                    k <= self.word_len,
                    pot < self.module,
                    pot as int == pow(
                        self.base as int,
                        (pb.width() * (len - i - 1) + k) as nat,
                    ) % self.module as int,
                decreases self.word_len - k,
            {
                proof {
                    let e = (pb.width() * (len - i - 1) + k) as nat;
                    lemma_pow_unfold_last(self.base as int, e + 1);
                    lemma_mul_mod_noop_general(
                        pow(self.base as int, e),
                        self.base as int,
                        self.module as int,
                    );
                }
                assert(pot * self.base <= 0xffff_ffff_ffff_ffff * 0xffff_ffff_ffff_ffff)
                    by (nonlinear_arith)
                    requires
                        pot <= 0xffff_ffff_ffff_ffff,
                        self.base <= 0xffff_ffff_ffff_ffff,
                ;
                pot = ((pot as u128 * self.base as u128) % (self.module as u128)) as u64;
                k = k + 1;
            }
            assert(pb.width() * (len - i - 1) + self.word_len == pb.width() * (len - i))
                by (nonlinear_arith)
                requires
                    pb.width() == self.word_len,
            ;
        }
        assert(self.leaves_ready(len as nat));
        assert(level_sums(self.tree@, len as int) =~= leaf_level(pb)) by {
            assert forall|t: int| 0 <= t < len implies level_sums(self.tree@, len as int)[t]
                == leaf_level(pb)[t] by {
                assert(sums(self.tree[t + len]@) == leaf_level(pb)[t]);
            }
        }
    }

    /// Follows the node `p` of the list at tree position `x` down to its
    /// leaves, and writes the choice of each leaf at its position: the two
    /// words of the leaf, exchanged where the swap bit `m` is set for it. The
    /// bit passes down from a node to a child, flipped where the child is
    /// reversed.
    fn collect(
        &self,
        x: usize,
        p: usize,
        m: bool,
        choices: &mut Vec<Option<(usize, usize)>>,
        Ghost(len): Ghost<nat>,
        Ghost(from): Ghost<int>,
    )
        requires
            self.configured(),
            self.tree.len() == 2 * len,
            deep_ok(self.problem(len), self.tree@, self.span@, from),
            0 <= from <= x < self.tree.len(),
            p < self.tree[x as int].len(),
            old(choices).len() == len,
            forall|pos: int|
                0 <= pos < len && self.span@[x as int].contains(pos) ==> (#[trigger] old(choices)[pos])
                    is None,
        ensures
            final(choices).len() == len,
            forall|pos: int|
                0 <= pos < len && !self.span@[x as int].contains(pos) ==> (#[trigger] final(choices)[pos])
                    == old(choices)[pos],
            forall|pos: int|
                0 <= pos < len && self.span@[x as int].contains(pos) ==> picked(
                    #[trigger] final(choices)[pos],
                    self.alphabet.len() as int,
                ),
            exists|pos: int| 0 <= pos < len && #[trigger] self.span@[x as int].contains(pos),
            forall|pos: int|
                0 <= pos < len ==> #[trigger] final(choices)[pos] == written_over(
                    self.tree@,
                    x as int,
                    p as int,
                    m,
                    old(choices)@,
                    pos,
                ),
            (total(self.problem(len), final(choices)@, len) - total(
                self.problem(len),
                old(choices)@,
                len,
            ) - signed(m, self.tree[x as int][p as int].sum())) % self.module as int == 0,
        decreases self.tree.len() - x,
    {
        let ghost pb = self.problem(len);
        let ghost span = self.span@;
        let ghost start = choices@;
        let node = self.tree[x][p];
        assert(node_ok(pb, self.tree@, span, x as int, node));
        match node {
            TreeAttackNode::Internal(n) => {
                let l = 2 * n.idx;
                let r = 2 * n.idx + 1;
                self.collect(l, n.pos_left, m != n.rev_left, choices, Ghost(len), Ghost(from));
                let ghost middle = choices@;
                proof {
                    assert forall|pos: int| 0 <= pos < len && span[r as int].contains(pos) implies (
                    #[trigger] middle[pos]) is None by {
                        assert(span[x as int].contains(pos));
                        assert(!span[l as int].contains(pos));
                    }
                }
                self.collect(r, n.pos_right, m != n.rev_right, choices, Ghost(len), Ghost(from));
                proof {
                    let done = choices@;
                    let xl = self.tree[l as int][n.pos_left as int].sum();
                    let yr = self.tree[r as int][n.pos_right as int].sum();
                    lemma_multiples_add(
                        total(pb, middle, len) - total(pb, start, len) - signed(
                            m != n.rev_left,
                            xl,
                        ),
                        total(pb, done, len) - total(pb, middle, len) - signed(
                            m != n.rev_right,
                            yr,
                        ),
                        pb.module,
                    );
                    assert forall|pos: int| 0 <= pos < len && span[x as int].contains(pos) implies picked(
                        #[trigger] done[pos],
                        self.alphabet.len() as int,
                    ) by {
                        if span[r as int].contains(pos) {
                        } else {
                            assert(span[l as int].contains(pos));
                            assert(done[pos] == middle[pos]);
                        }
                    }
                    assert forall|pos: int|
                        0 <= pos < len && !span[x as int].contains(pos) implies #[trigger] done[pos]
                        == start[pos] by {
                        assert(!span[l as int].contains(pos) && !span[r as int].contains(pos));
                        assert(done[pos] == middle[pos]);
                    }
                    let witness = choose|pos: int|
                        0 <= pos < len && #[trigger] span[l as int].contains(pos);
                    assert(span[x as int].contains(witness));
                    assert forall|pos: int| 0 <= pos < len implies #[trigger] done[pos]
                        == written_over(self.tree@, x as int, p as int, m, start, pos) by {
                        assert(middle[pos] == written_over(
                            self.tree@,
                            l as int,
                            n.pos_left as int,
                            m != n.rev_left,
                            start,
                            pos,
                        ));
                        assert(done[pos] == written_over(
                            self.tree@,
                            r as int,
                            n.pos_right as int,
                            m != n.rev_right,
                            middle,
                            pos,
                        ));
                    }
                }
            },
            TreeAttackNode::Leaf(n) => {
                let choice = if !m {
                    (n.word1, n.word2)
                } else {
                    (n.word2, n.word1)
                };
                assert(span[x as int].contains(n.idx as int));
                choices[n.idx] = Some(choice);
                proof {
                    lemma_total_update(pb, start, n.idx as int, Some(choice), len);
                    lemma_delta_swap(pb, n.idx as int, n.word1 as int, n.word2 as int);
                    lemma_mod_equivalence(
                        pb.delta(n.idx as int, n.word1 as int, n.word2 as int),
                        n.sum as int,
                        pb.module,
                    );
                    lemma_mod_equivalence(
                        n.sum as int,
                        pb.delta(n.idx as int, n.word1 as int, n.word2 as int),
                        pb.module,
                    );
                    assert forall|pos: int| 0 <= pos < len implies #[trigger] choices@[pos]
                        == written_over(self.tree@, x as int, p as int, m, start, pos) by {}
                }
            },
        }
    }

    /// Builds the two strings from the node of sum zero at the head of the
    /// list at tree position `idx`. The leaves below the node choose the
    /// words at their positions; at every other position both strings get
    /// one and the same word, drawn at random. The search itself is left as
    /// it is.
    fn construct_solution(&self, len: usize, idx: usize, Ghost(from): Ghost<int>) -> (pair: (
        String,
        String,
    ))
        requires
            self.configured(),
            self.tree.len() == 2 * len,
            deep_ok(self.problem(len as nat), self.tree@, self.span@, from),
            0 <= from <= idx < self.tree.len(),
            self.tree[idx as int].len() > 0,
            self.tree[idx as int][0].sum() == 0,
        ensures
            is_tree_answer(
                pair.0@,
                pair.1@,
                texts(self.alphabet@),
                len as nat,
                self.base as int,
                self.module as int,
            ),
            is_built(pair.0@, pair.1@, texts(self.alphabet@), self.tree@, idx as int, len as nat),
            pair.0@.len() == len * self.word_len,
            pair.1@.len() == len * self.word_len,
    {
        let ghost pb = self.problem(len as nat);
        let ghost words = pb.words;
        let mut choices: Vec<Option<(usize, usize)>> = Vec::new();
        while choices.len() < len
            invariant
                choices.len() <= len,
                forall|pos: int| 0 <= pos < choices.len() ==> (#[trigger] choices[pos]) is None,
            decreases len - choices.len(),
        {
            choices.push(None);
        }
        let ghost blank = choices@;
        proof {
            lemma_total_blank(pb, blank, len as nat);
        }
        self.collect(idx, 0, false, &mut choices, Ghost(len as nat), Ghost(from));
        let ghost marked = choose|pos: int|
            0 <= pos < len && #[trigger] self.span@[idx as int].contains(pos);
        proof {
            assert(picked(choices[marked], self.alphabet.len() as int));
            assert forall|q: int| 0 <= q < len && (#[trigger] choices[q]) is Some implies picked(
                choices[q],
                self.alphabet.len() as int,
            ) by {
                lemma_chosen_are_picked(
                    choices@,
                    blank,
                    self.span@[idx as int],
                    q,
                    len as nat,
                    self.alphabet.len() as int,
                );
            }
        }
        let mut rng = thread_rng();
        let mut fi = String::new();
        let mut se = String::new();
        let ghost mut xs: Seq<int> = Seq::empty();
        let ghost mut ys: Seq<int> = Seq::empty();
        let mut pos: usize = 0;
        while pos < len
            invariant
                self.configured(),
                pb == self.problem(len as nat),
                words == texts(self.alphabet@),
                choices.len() == len,
                pos <= len,
                xs.len() == pos,
                ys.len() == pos,
                valid_picks(xs, words.len() as int),
                valid_picks(ys, words.len() as int),
                fi@ == spell(words, xs),
                se@ == spell(words, ys),
                pair_total(pb, xs, ys) == total(pb, choices@, pos as nat),
                forall|q: int|
                    0 <= q < len && (#[trigger] choices[q]) is Some ==> picked(
                        choices[q],
                        self.alphabet.len() as int,
                    ),
                0 <= marked < len,
                choices[marked] is Some,
                marked < pos ==> xs[marked] != ys[marked],
                forall|q: int|
                    0 <= q < pos ==> match #[trigger] choices[q] {
                        Some((a, c)) => xs[q] == a && ys[q] == c,
                        None => xs[q] == ys[q],
                    },
            decreases len - pos,
        {
            let ghost q1 = xs;
            let ghost q2 = ys;
            match choices[pos] {
                Some((w1, w2)) => {
                    assert(picked(choices[pos as int], self.alphabet.len() as int));
                    fi.append(self.alphabet[w1].as_str());
                    se.append(self.alphabet[w2].as_str());
                    proof {
                        lemma_spell_push(words, xs, w1 as int);
                        lemma_spell_push(words, ys, w2 as int);
                        xs = xs.push(w1 as int);
                        ys = ys.push(w2 as int);
                    }
                },
                None => {
                    let i = gen_index(&mut rng, self.alphabet.len());
                    fi.append(self.alphabet[i].as_str());
                    se.append(self.alphabet[i].as_str());
                    proof {
                        lemma_spell_push(words, xs, i as int);
                        lemma_spell_push(words, ys, i as int);
                        xs = xs.push(i as int);
                        ys = ys.push(i as int);
                        assert(pb.delta(pos as int, i as int, i as int) == 0) by (nonlinear_arith)
                            requires
                                pb.delta(pos as int, i as int, i as int) == (poly(
                                    pb.words[i as int],
                                    pb.base,
                                ) - poly(pb.words[i as int], pb.base)) * pb.weight(pos as int),
                        ;
                    }
                },
            }
            proof {
                assert(xs.drop_last() =~= q1);
                assert(ys.drop_last() =~= q2);
                if marked < pos {
                    assert(xs[marked] == q1[marked] && ys[marked] == q2[marked]);
                }
                assert forall|q: int| 0 <= q < pos + 1 implies match #[trigger] choices[q] {
                    Some((a, c)) => xs[q] == a && ys[q] == c,
                    None => xs[q] == ys[q],
                } by {
                    if q < pos {
                        assert(xs[q] == q1[q] && ys[q] == q2[q]);
                    }
                }
            }
            pos = pos + 1;
        }
        proof {
            lemma_pair_total(pb, xs, ys);
            assert(pb.width() * (pb.len - xs.len()) == 0) by (nonlinear_arith)
                requires
                    pb.len == xs.len(),
            ;
            lemma_pow0(pb.base);
            let d = poly(fi@, pb.base) - poly(se@, pb.base);
            assert(d * 1 == d);
            assert(d == total(pb, choices@, len as nat));
            assert(d % pb.module == 0);
            lemma_mod_equivalence(poly(fi@, pb.base), poly(se@, pb.base), pb.module);
            assert(xs[marked] != ys[marked]);
            assert(follows(xs, ys, self.tree@, idx as int, len as nat)) by {
                assert forall|q: int| 0 <= q < len implies match #[trigger] choice_at(
                    self.tree@,
                    idx as int,
                    0,
                    false,
                    q,
                ) {
                    Some((a, c)) => xs[q] == a && ys[q] == c,
                    None => xs[q] == ys[q],
                } by {
                    assert(choices[q] == written_over(self.tree@, idx as int, 0, false, blank, q));
                    assert(blank[q] is None);
                }
            }
            lemma_spell_len(words, xs);
            lemma_spell_len(words, ys);
        }
        (fi, se)
    }

    /// The two strings are built from a node of sum zero that stands alone
    /// in its list: spelled from `len` words each, by picks that follow the
    /// node.
    spec fn built(&self, s1: Seq<char>, s2: Seq<char>, len: nat) -> bool {
        exists|idx: int|
            0 <= idx < self.tree.len() && self.tree[idx].len() == 1 && self.tree[idx][0].sum()
                == 0 && #[trigger] is_built(s1, s2, texts(self.alphabet@), self.tree@, idx, len)
    }

    /// One attempt with strings of two to the power of `p` words: makes the
    /// leaves, then runs the phases from the lowest level up, and builds the
    /// strings from the first node of sum zero that a phase finds.
    fn try_attack(&mut self, p: usize) -> (r: Option<(String, String)>)
        requires
            old(self).configured(),
            1 <= p <= 11,
        ensures
            final(self).configured(),
            final(self).setup() == old(self).setup(),
            r matches Some(pair) ==> is_tree_answer(
                pair.0@,
                pair.1@,
                texts(final(self).alphabet@),
                two_pow(p as nat),
                final(self).base as int,
                final(self).module as int,
            ),
            r matches Some(pair) ==> final(self).built(pair.0@, pair.1@, two_pow(p as nat)),
            twins(texts(final(self).alphabet@), final(self).base as int, final(self).module as int)
                ==> r is Some,
            r is Some <==> finds_with(
                texts(final(self).alphabet@),
                final(self).base as int,
                final(self).module as int,
                final(self).cluster_size as nat,
                p as nat,
            ),
    {
        let len = power_of_two(p);
        proof {
            lemma_two_pow_bound(p as nat, 11);
        }
        self.init_attack(len);
        let ghost pb = self.problem(len as nat);
        let ghost mut bound: int = self.module as int;
        proof {
            lemma_leaves_wait(pb, self.tree@, self.span@);
            assert(bound * len <= 0x1_0000_0000_0000_0000 * 0x800) by (nonlinear_arith)
                requires
                    0 <= bound <= 0x1_0000_0000_0000_0000,
                    0 <= len <= 0x800,
            ;
        }
        let mut i: usize = p;
        while i > 0
            invariant
                self.configured(),
                self.setup() == old(self).setup(),
                pb == self.problem(len as nat),
                i <= p <= 11,
                len == two_pow(p as nat),
                len <= 0x800,
                waiting(pb, self.tree@, self.span@, two_pow(i as nat) as int, bound),
                in_place(self.tree@, len as nat, two_pow(i as nat) as int, bound),
                0 <= bound,
                bound * two_pow(i as nat) <= 0x1_0000_0000_0000_0000 * 0x800,
                i == p && twins(pb.words, pb.base, pb.module) ==> forall|j: int|
                    len <= j < 2 * len ==> has_sum((#[trigger] self.tree[j])@, 0),
                i < p ==> !twins(pb.words, pb.base, pb.module),
                pb == problem_of(pb.words, pb.base, pb.module, p as nat),
                level_sums(self.tree@, two_pow(i as nat) as int) == level(
                    pb,
                    self.cluster_size as nat,
                    (p - i) as nat,
                ),
                forall|rounds: nat|
                    rounds < p - i ==> !#[trigger] shares_in(
                        level(pb, self.cluster_size as nat, rounds),
                    ),
            decreases i,
        {
            let ghost tree_before = self.tree@;
            let ghost first = i == p;
            i = i - 1;
            proof {
                lemma_two_pow_positive(i as nat);
                assert(two_pow((i + 1) as nat) == 2 * two_pow(i as nat));
                assert(2 * bound <= bound * (2 * two_pow(i as nat))) by (nonlinear_arith)
                    requires
                        0 <= bound,
                        two_pow(i as nat) >= 1,
                ;
                assert((2 * bound) * two_pow(i as nat) == bound * (2 * two_pow(i as nat)))
                    by (nonlinear_arith);
            }
            let ghost rounds = (p - i - 1) as nat;
            match self.run_phase(i, Ghost(len as nat), Ghost(bound)) {
                Some(idx) => {
                    let pair = self.construct_solution(
                        len,
                        idx,
                        Ghost(two_pow(i as nat) as int),
                    );
                    assert(shares_in(level(pb, self.cluster_size as nat, rounds)));
                    assert(is_built(
                        pair.0@,
                        pair.1@,
                        texts(self.alphabet@),
                        self.tree@,
                        idx as int,
                        two_pow(p as nat),
                    ));
                    assert(self.built(pair.0@, pair.1@, two_pow(p as nat)));
                    return Some(pair);
                },
                None => {},
            }
            proof {
                assert(level(pb, self.cluster_size as nat, rounds + 1) == next_level(
                    level(pb, self.cluster_size as nat, rounds),
                    self.cluster_size as nat,
                ));
                bound = 2 * bound;
                if first && twins(pb.words, pb.base, pb.module) {
                    let z = two_pow(i as nat) as int;
                    assert(len == 2 * z);
                    let left = self.tree@[2 * z];
                    let right = self.tree@[2 * z + 1];
                    let hl = home(left[0], len as nat);
                    let hr = home(right[0], len as nat);
                    assert(left == tree_before[hl]);
                    assert(right == tree_before[hr]);
                    assert(has_sum(tree_before[hl]@, 0));
                    assert(has_sum(tree_before[hr]@, 0));
                    lemma_zeros_share(left@, right@);
                    assert(pair_shares(self.tree@, z));
                }
            }
        }
        None
    }

    /// Orders the lists that wait by the sum of their first nodes.
    fn sort_level(&mut self, lo: usize, Ghost(len): Ghost<nat>, Ghost(bound): Ghost<int>)
        requires
            old(self).configured(),
            old(self).level_ready(len, lo as int, bound),
            old(self).level_in_place(len, lo as int),
            len <= 0x800,
        ensures
            final(self).configured(),
            final(self).setup() == old(self).setup(),
            final(self).level_ready(len, lo as int, bound),
            traced(old(self).tree@, final(self).tree@, len, lo as int),
            in_order(old(self).tree@, final(self).tree@, lo as int),
            forall|j: int| 0 <= j < lo ==> #[trigger] final(self).tree[j] == old(self).tree[j],
            level_sums(final(self).tree@, lo as int) == ordered(
                level_sums(old(self).tree@, lo as int),
                head(),
            ),
    {
        let ghost pb = self.problem(len);
        let ghost old_tree = self.tree@;
        let ghost old_span = self.span@;
        order_lists(&mut self.tree, lo, 2 * lo);
        self.span = Ghost(spans_after(old_span, self.tree@, lo as int, len));
        proof {
            let new_tree = self.tree@;
            let new_span = self.span@;
            lemma_ordered_multiset(old_tree.subrange(lo as int, 2 * lo), first_sum());
            assert forall|j: int| lo <= j < 2 * lo implies (#[trigger] old_tree[j]).len() > 0 by {
                assert(list_ready(old_tree[j]@, bound));
            }
            lemma_ordered_sums(old_tree, new_tree, lo as int);
            assert(in_place(old_tree, len, lo as int, bound)) by {
                assert forall|j: int| lo <= j < 2 * lo implies made_at(
                    (#[trigger] old_tree[j])@,
                    len,
                    j,
                ) && list_ready(old_tree[j]@, bound) by {}
            }
            lemma_origin(old_tree, new_tree, len, lo as int, bound);
            lemma_resorted_apart(old_tree, old_span, new_tree, len, lo as int, bound);
            assert(apart(new_span, lo as int));
            lemma_resorted_sound(pb, old_tree, old_span, new_tree, lo as int, bound);
            assert forall|j: int| lo <= j < 2 * lo implies list_ready(
                (#[trigger] self.tree[j])@,
                bound,
            ) by {
                let h = home(new_tree[j][0], len);
                assert(list_ready(old_tree[h]@, bound));
            }
            assert forall|j: int| 0 <= j < lo implies (#[trigger] self.tree[j]).len() == 0 by {
                assert(new_tree[j] == old_tree[j]);
            }
            assert forall|j: int| 0 <= j < lo implies #[trigger] self.span@[j] == Set::<
                int,
            >::empty() by {
                assert(new_span[j] == old_span[j]);
            }
            assert(self.level_ready(len, lo as int, bound));
        }
    }
}

/// Searches for two strings over `alphabet` with one hash under
/// `(base, module)`, by the tree attack with lists of `cluster_size` nodes at
/// most, for strings of 8, 16, ..., 2048 words in turn.
pub fn find_single_collision(
    base: u64,
    module: u64,
    cluster_size: usize,
    alphabet: &Vec<String>,
) -> (r: Option<(String, String)>)
    requires
        module > 0,
        1 <= cluster_size <= max_cluster_size(),
        alphabet.len() >= 2,
        equal_width(texts(alphabet@)),
    ensures
        r matches Some(pair) ==> {
            &&& exists|e: nat|
                #[trigger] is_tree_answer(
                    pair.0@,
                    pair.1@,
                    texts(alphabet@),
                    two_pow(e),
                    base as int,
                    module as int,
                ) && finds_first_with(
                    texts(alphabet@),
                    base as int,
                    module as int,
                    cluster_size as nat,
                    e,
                )
            &&& pair.0@.len() == pair.1@.len()
            &&& distinct_words(texts(alphabet@)) ==> pair.0@ != pair.1@
        },
        twins(texts(alphabet@), base as int, module as int) ==> r is Some,
        r is Some <==> finds(texts(alphabet@), base as int, module as int, cluster_size as nat),
{
    let mut attack = TreeAttack::new(base, module, cluster_size, alphabet);
    let mut i: usize = 3;
    while i < 12
        invariant
            3 <= i <= 12,
            attack.configured(),
            attack.alphabet == alphabet,
            attack.base == base,
            attack.module == module,
            attack.cluster_size == cluster_size,
            i > 3 ==> !twins(texts(alphabet@), base as int, module as int),
            forall|p: nat|
                3 <= p < i ==> !#[trigger] finds_with(
                    texts(alphabet@),
                    base as int,
                    module as int,
                    cluster_size as nat,
                    p,
                ),
        decreases 12 - i,
    {
        let coll = attack.try_attack(i);
        if coll.is_some() {
            proof {
                let pair = coll.unwrap();
                lemma_tree_answer(
                    pair.0@,
                    pair.1@,
                    texts(alphabet@),
                    two_pow(i as nat),
                    base as int,
                    module as int,
                );
                assert(finds_first_with(
                    texts(alphabet@),
                    base as int,
                    module as int,
                    cluster_size as nat,
                    i as nat,
                ));
            }
            return coll;
        }
        i = i + 1;
    }
    None
}

/// Whether `find_collision` takes these bases, modules, cluster size and
/// alphabet: a pair of a base and a module at least, no module zero, room
/// for a node in a list and no more than can be allocated, and an alphabet
/// of two words or more, all of one width.
pub fn accepts(
    bases: &Vec<u64>,
    modules: &Vec<u64>,
    cluster_size: usize,
    alphabet: &Vec<String>,
) -> (ok: bool)
    ensures
        ok == (bases.len() >= 1 && bases.len() == modules.len() && positive(modules@) && 1
            <= cluster_size <= max_cluster_size() && alphabet.len() >= 2 && equal_width(
            texts(alphabet@),
        )),
{
    if bases.len() < 1 || bases.len() != modules.len() || alphabet.len() < 2 {
        return false;
    }
    if cluster_size < 1 || cluster_size > (isize::MAX as usize) / 64 / 3 {
        return false;
    }
    let mut j: usize = 0;
    while j < modules.len()
        invariant
            j <= modules.len(),
            forall|k: int| 0 <= k < j ==> #[trigger] modules[k] > 0,
        decreases modules.len() - j,
    {
        if modules[j] == 0 {
            return false;
        }
        j = j + 1;
    }
    has_equal_width(alphabet)
}

/// Searches for two strings over `init_alphabet` that have one hash under
/// every pair `(bases[j], modules[j])`, by the tree attack. The pairs are
/// taken in order: the pair of strings found for one serves as the alphabet
/// for the next. Each pair of a base and a module multiplies the number of
/// words by 8 to 2048.
pub fn find_collision(
    bases: Vec<u64>,
    modules: Vec<u64>,
    cluster_size: usize,
    init_alphabet: Vec<String>,
) -> (r: Option<(String, String)>)
    requires
        bases.len() >= 1,
        bases.len() == modules.len(),
        positive(modules@),
        1 <= cluster_size <= max_cluster_size(),
        init_alphabet.len() >= 2,
        equal_width(texts(init_alphabet@)),
    ensures
        r matches Some(pair) ==> {
            &&& pair.0@.len() == pair.1@.len()
            &&& exists|n: nat| #[trigger]
                spelled(pair.0@, texts(init_alphabet@), n) && spelled(
                    pair.1@,
                    texts(init_alphabet@),
                    n,
                ) && pow(8, bases.len() as nat) <= n <= pow(0x800, bases.len() as nat)
            &&& collide_under_first(pair.0@, pair.1@, bases@, modules@, bases.len() as int)
            &&& distinct_words(texts(init_alphabet@)) ==> pair.0@ != pair.1@
        },
        r is Some ==> finds(
            texts(init_alphabet@),
            bases[0] as int,
            modules[0] as int,
            cluster_size as nat,
        ),
        bases.len() == 1 && finds(
            texts(init_alphabet@),
            bases[0] as int,
            modules[0] as int,
            cluster_size as nat,
        ) ==> r is Some,
{
    let ghost base_words = texts(init_alphabet@);
    let ghost mut per: nat = 1;
    proof {
        lemma_words_spell_themselves(base_words);
        lemma_pow0(8);
        lemma_pow0(0x800);
    }
    let mut alphabet = init_alphabet;
    let mut j: usize = 0;
    while j < bases.len()
        invariant
            base_words == texts(init_alphabet@),
            bases.len() >= 1,
            bases.len() == modules.len(),
            positive(modules@),
            1 <= cluster_size <= max_cluster_size(),
            j <= bases.len(),
            alphabet.len() >= 2,
            equal_width(texts(alphabet@)),
            forall|i: int|
                0 <= i < alphabet.len() ==> spelled(
                    #[trigger] texts(alphabet@)[i],
                    base_words,
                    per,
                ),
            words_collide_under_first(texts(alphabet@), bases@, modules@, j as int),
            j > 0 ==> alphabet.len() == 2,
            j == 0 ==> texts(alphabet@) == base_words,
            j > 0 ==> finds(base_words, bases[0] as int, modules[0] as int, cluster_size as nat),
            distinct_words(base_words) ==> distinct_words(texts(alphabet@)),
            pow(8, j as nat) <= per <= pow(0x800, j as nat),
        decreases bases.len() - j,
    {
        match find_single_collision(bases[j], modules[j], cluster_size, &alphabet) {
            Some((fi, se)) => {
                proof {
                    let cur = texts(alphabet@);
                    let e = choose|e: nat|
                        #[trigger] is_tree_answer(
                            fi@,
                            se@,
                            cur,
                            two_pow(e),
                            bases[j as int] as int,
                            modules[j as int] as int,
                        ) && finds_first_with(
                            cur,
                            bases[j as int] as int,
                            modules[j as int] as int,
                            cluster_size as nat,
                            e,
                        );
                    lemma_tree_answer(
                        fi@,
                        se@,
                        cur,
                        two_pow(e),
                        bases[j as int] as int,
                        modules[j as int] as int,
                    );
                    lemma_lift_step(
                        base_words,
                        cur,
                        per,
                        fi@,
                        se@,
                        two_pow(e),
                        bases@,
                        modules@,
                        j as int,
                    );
                    lemma_two_pow_bound(3, e);
                    lemma_two_pow_bound(e, 11);
                    assert(two_pow(3) == 8) by {
                        reveal_with_fuel(two_pow, 4);
                    }
                    lemma_pow_unfold_last(8, (j + 1) as nat);
                    lemma_pow_unfold_last(0x800, (j + 1) as nat);
                    lemma_pow_positive(8, j as nat);
                    assert(pow(8, j as nat) * 8 <= two_pow(e) * per <= pow(0x800, j as nat)
                        * 0x800) by (nonlinear_arith)
                        requires
                            8 <= two_pow(e) <= 0x800,
                            0 < pow(8, j as nat) <= per <= pow(0x800, j as nat),
                    ;
                    per = two_pow(e) * per;
                }
                alphabet = vec![fi, se];
                proof {
                    assert(texts(alphabet@) =~= seq![fi@, se@]);
                }
            },
            None => {
                return None;
            },
        }
        j = j + 1;
    }
    let ghost last = texts(alphabet@);
    let se = alphabet.remove(1);
    let fi = alphabet.remove(0);
    proof {
        assert(last[0] == fi@ && last[1] == se@);
        assert(spelled(last[0], base_words, per) && spelled(last[1], base_words, per));
        assert(fi@.len() == se@.len());
        if distinct_words(base_words) {
            assert(last[0] != last[1]);
        }
        assert(spelled(fi@, texts(init_alphabet@), per) && spelled(
            se@,
            texts(init_alphabet@),
            per,
        ));
        assert forall|t: int| 0 <= t < bases.len() implies collide(
            fi@,
            se@,
            #[trigger] bases@[t] as int,
            modules@[t] as int,
        ) by {
            assert(words_collide(last, bases@[t] as int, modules@[t] as int));
            assert(hash_of(last[1], bases@[t] as int, modules@[t] as int) == hash_of(
                last[0],
                bases@[t] as int,
                modules@[t] as int,
            ));
        }
        assert(collide_under_first(fi@, se@, bases@, modules@, bases.len() as int));
        assert(j == bases.len());
        assert(exists|n: nat| #[trigger]
            spelled(fi@, texts(init_alphabet@), n) && spelled(se@, texts(init_alphabet@), n)
                && pow(8, bases.len() as nat) <= n <= pow(0x800, bases.len() as nat));
    }
    Some((fi, se))
}

} // verus!
