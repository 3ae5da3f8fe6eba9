//! The words chosen at each position of the two strings, and what the
//! choices add to the difference of the two polynomials.

use crate::hash::{collide, lemma_poly_concat, poly};
use crate::tree_attack::TreeAttackNode;
use crate::tree_invariant::Problem;
use crate::words::{
    distinct_words, equal_width, lemma_spell_differs, lemma_spell_len, spell, spelled, valid_picks,
};
use vstd::arithmetic::div_mod::{lemma_add_mod_noop, lemma_small_mod};
use vstd::arithmetic::power::{lemma_pow_adds, pow};
use vstd::prelude::*;

verus! {

/// What the choice of words at position `pos` adds to the difference of the
/// two polynomials; nothing where no choice is made.
pub open spec fn chosen_delta(pb: Problem, pos: int, choice: Option<(usize, usize)>) -> int {
    match choice {
        Some((a, c)) => pb.delta(pos, a as int, c as int),
        None => 0,
    }
}

/// What the choices at the positions below `k` add up to.
pub open spec fn total(pb: Problem, choices: Seq<Option<(usize, usize)>>, k: nat) -> int
    decreases k,
{
    if k == 0 {
        0
    } else {
        total(pb, choices, (k - 1) as nat) + chosen_delta(pb, k - 1, choices[k - 1])
    }
}

/// A choice of two different words among `n`.
pub open spec fn picked(choice: Option<(usize, usize)>, n: int) -> bool {
    choice matches Some((a, c)) && a != c && a < n && c < n
}

/// Where no choice is made, nothing adds up.
pub proof fn lemma_total_blank(pb: Problem, choices: Seq<Option<(usize, usize)>>, k: nat)
    requires
        k <= choices.len(),
        forall|pos: int| 0 <= pos < choices.len() ==> (#[trigger] choices[pos]) is None,
    ensures
        total(pb, choices, k) == 0,
    decreases k,
{
    if k > 0 {
        lemma_total_blank(pb, choices, (k - 1) as nat);
    }
}

/// A new choice at one position changes the total by what it adds over the
/// old choice.
pub proof fn lemma_total_update(
    pb: Problem,
    choices: Seq<Option<(usize, usize)>>,
    pos: int,
    choice: Option<(usize, usize)>,
    k: nat,
)
    requires
        0 <= pos < choices.len(),
        k <= choices.len(),
    ensures
        total(pb, choices.update(pos, choice), k) == total(pb, choices, k) + if pos < k {
            chosen_delta(pb, pos, choice) - chosen_delta(pb, pos, choices[pos])
        } else {
            0
        },
    decreases k,
{
    if k > 0 {
        lemma_total_update(pb, choices, pos, choice, (k - 1) as nat);
    }
}

/// A choice that was written into blank choices within `span` names two
/// different words.
pub proof fn lemma_chosen_are_picked(
    choices: Seq<Option<(usize, usize)>>,
    blank: Seq<Option<(usize, usize)>>,
    span: Set<int>,
    pos: int,
    len: nat,
    n: int,
)
    requires
        0 <= pos < len,
        choices.len() == len,
        blank.len() == len,
        choices[pos] is Some,
        forall|q: int| 0 <= q < len ==> (#[trigger] blank[q]) is None,
        forall|q: int| 0 <= q < len && !span.contains(q) ==> #[trigger] choices[q] == blank[q],
        forall|q: int| 0 <= q < len && span.contains(q) ==> picked(#[trigger] choices[q], n),
    ensures
        picked(choices[pos], n),
{
    if !span.contains(pos) {
        assert(choices[pos] == blank[pos]);
    }
}

/// Swapping the two words of a choice negates what it adds.
pub proof fn lemma_delta_swap(pb: Problem, pos: int, a: int, c: int)
    ensures
        pb.delta(pos, c, a) == -pb.delta(pos, a, c),
{
    let pa = poly(pb.words[a], pb.base);
    let pc = poly(pb.words[c], pb.base);
    let w = pb.weight(pos);
    assert((pc - pa) * w == -((pa - pc) * w)) by (nonlinear_arith);
}

/// Two multiples add up to a multiple.
pub proof fn lemma_multiples_add(a: int, b: int, m: int)
    requires
        m > 0,
        a % m == 0,
        b % m == 0,
    ensures
        (a + b) % m == 0,
{
    lemma_add_mod_noop(a, b, m);
    lemma_small_mod(0, m as nat);
}

/// What the choices of two runs of picks add up to, position by position.
pub open spec fn pair_total(pb: Problem, xs: Seq<int>, ys: Seq<int>) -> int
    decreases xs.len(),
{
    if xs.len() == 0 {
        0
    } else {
        pair_total(pb, xs.drop_last(), ys.drop_last()) + pb.delta(
            xs.len() - 1,
            xs.last(),
            ys.last(),
        )
    }
}

/// The difference of the polynomials of two strings spelled from equally
/// many words, shifted up to the full length, is what the choices add up to.
pub proof fn lemma_pair_total(pb: Problem, xs: Seq<int>, ys: Seq<int>)
    requires
        equal_width(pb.words),
        valid_picks(xs, pb.words.len() as int),
        valid_picks(ys, pb.words.len() as int),
        xs.len() == ys.len(),
        xs.len() <= pb.len,
    ensures
        (poly(spell(pb.words, xs), pb.base) - poly(spell(pb.words, ys), pb.base)) * pow(
            pb.base,
            (pb.width() * (pb.len - xs.len())) as nat,
        ) == pair_total(pb, xs, ys),
    decreases xs.len(),
{
    let k = xs.len();
    let b = pb.base;
    let w = pb.width();
    if k > 0 {
        let q1 = xs.drop_last();
        let q2 = ys.drop_last();
        lemma_pair_total(pb, q1, q2);
        let s1 = spell(pb.words, q1);
        let s2 = spell(pb.words, q2);
        let w1 = pb.words[xs.last()];
        let w2 = pb.words[ys.last()];
        assert(w1.len() == w && w2.len() == w);
        lemma_poly_concat(s1, w1, b);
        lemma_poly_concat(s2, w2, b);
        let rest = (w * (pb.len - k)) as nat;
        assert(w * (pb.len - (k - 1)) == w + w * (pb.len - k)) by (nonlinear_arith);
        lemma_pow_adds(b, w, rest);
        let high = pow(b, rest);
        let step = pow(b, w);
        let d = poly(s1, b) - poly(s2, b);
        let e = poly(w1, b) - poly(w2, b);
        assert(pb.weight(k - 1) == high);
        assert(((poly(s1, b) * step + poly(w1, b)) - (poly(s2, b) * step + poly(w2, b))) * high
            == d * (step * high) + e * high) by (nonlinear_arith)
            requires
                d == poly(s1, b) - poly(s2, b),
                e == poly(w1, b) - poly(w2, b),
        ;
    } else {
        assert(spell(pb.words, xs) =~= spell(pb.words, ys));
    }
}

/// The words that node `p` of the list at tree position `x` chooses for
/// position `pos`, if it chooses any: the two words of the leaf for `pos`
/// that the node leads to, the second one first where `swap` is set. The
/// bit passes down from a node to a child, flipped where the child is
/// reversed.
pub open spec fn choice_at(
    tree: Seq<Vec<TreeAttackNode>>,
    x: int,
    p: int,
    swap: bool,
    pos: int,
) -> Option<(usize, usize)>
    decreases tree.len() - x,
{
    if 0 <= x < tree.len() && 0 <= p < tree[x].len() {
        match tree[x][p] {
            TreeAttackNode::Leaf(n) => if n.idx == pos {
                Some(
                    if swap {
                        (n.word2, n.word1)
                    } else {
                        (n.word1, n.word2)
                    },
                )
            } else {
                None
            },
            TreeAttackNode::Internal(n) => if x < 2 * n.idx && 2 * n.idx + 1 < tree.len() {
                match choice_at(tree, 2 * n.idx + 1, n.pos_right as int, swap != n.rev_right, pos) {
                    Some(choice) => Some(choice),
                    None => choice_at(tree, 2 * n.idx, n.pos_left as int, swap != n.rev_left, pos),
                }
            } else {
                None
            },
        }
    } else {
        None
    }
}

/// The choices after node `p` of the list at `x` has written its own over
/// `before`.
pub open spec fn written_over(
    tree: Seq<Vec<TreeAttackNode>>,
    x: int,
    p: int,
    swap: bool,
    before: Seq<Option<(usize, usize)>>,
    pos: int,
) -> Option<(usize, usize)> {
    match choice_at(tree, x, p, swap, pos) {
        Some(choice) => Some(choice),
        None => before[pos],
    }
}

/// The picks `xs` and `ys` follow the first node of the list at `idx`: where
/// the node chooses two words for a position, `xs` has the first and `ys`
/// the second; at every other position the two have one word.
pub open spec fn follows(
    xs: Seq<int>,
    ys: Seq<int>,
    tree: Seq<Vec<TreeAttackNode>>,
    idx: int,
    len: nat,
) -> bool {
    forall|pos: int|
        0 <= pos < len ==> match #[trigger] choice_at(tree, idx, 0, false, pos) {
            Some((a, c)) => xs[pos] == a && ys[pos] == c,
            None => xs[pos] == ys[pos],
        }
}

/// The two strings are spelled from `len` words each, by picks that follow
/// the first node of the list at `idx`.
pub open spec fn is_built(
    s1: Seq<char>,
    s2: Seq<char>,
    words: Seq<Seq<char>>,
    tree: Seq<Vec<TreeAttackNode>>,
    idx: int,
    len: nat,
) -> bool {
    exists|xs: Seq<int>, ys: Seq<int>|
        #![trigger spell(words, xs), spell(words, ys)]
        {
            &&& xs.len() == len
            &&& ys.len() == len
            &&& valid_picks(xs, words.len() as int)
            &&& valid_picks(ys, words.len() as int)
            &&& s1 == spell(words, xs)
            &&& s2 == spell(words, ys)
            &&& follows(xs, ys, tree, idx, len)
        }
}

/// What the tree solver owes for a pair that it returns. The two strings are
/// spelled from `n` words of `words` each, by picks that differ at some
/// position, and have one hash under `(b, m)`.
pub open spec fn is_tree_answer(
    s1: Seq<char>,
    s2: Seq<char>,
    words: Seq<Seq<char>>,
    n: nat,
    b: int,
    m: int,
) -> bool {
    &&& collide(s1, s2, b, m)
    &&& exists|xs: Seq<int>, ys: Seq<int>|
        #![trigger spell(words, xs), spell(words, ys)]
        {
            &&& xs.len() == n
            &&& ys.len() == n
            &&& valid_picks(xs, words.len() as int)
            &&& valid_picks(ys, words.len() as int)
            &&& s1 == spell(words, xs)
            &&& s2 == spell(words, ys)
            &&& exists|pos: int| 0 <= pos < n && #[trigger] xs[pos] != ys[pos]
        }
}

/// An answer of the tree solver consists of two strings of one length, each
/// spelled from the words; and they are different where no word occurs
/// twice in the alphabet.
pub proof fn lemma_tree_answer(
    s1: Seq<char>,
    s2: Seq<char>,
    words: Seq<Seq<char>>,
    n: nat,
    b: int,
    m: int,
)
    requires
        equal_width(words),
        is_tree_answer(s1, s2, words, n, b, m),
    ensures
        spelled(s1, words, n),
        spelled(s2, words, n),
        s1.len() == s2.len(),
        distinct_words(words) ==> s1 != s2,
{
    let (xs, ys) = choose|xs: Seq<int>, ys: Seq<int>|
        #![trigger spell(words, xs), spell(words, ys)]
        {
            &&& xs.len() == n
            &&& ys.len() == n
            &&& valid_picks(xs, words.len() as int)
            &&& valid_picks(ys, words.len() as int)
            &&& s1 == spell(words, xs)
            &&& s2 == spell(words, ys)
            &&& exists|pos: int| 0 <= pos < n && #[trigger] xs[pos] != ys[pos]
        };
    lemma_spell_len(words, xs);
    lemma_spell_len(words, ys);
    if distinct_words(words) {
        let pos = choose|pos: int| 0 <= pos < n && #[trigger] xs[pos] != ys[pos];
        lemma_spell_differs(words, xs, ys, pos);
    }
}

} // verus!
