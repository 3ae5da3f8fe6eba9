//! From one hash to several: a pair that collides under one hash serves as
//! a two-word alphabet for the next, and what is spelled from it still
//! collides under the first.

use crate::hash::{collide, hash_of};
use crate::words::{
    equal_width, lemma_spell_collide, lemma_spell_flatten, spell, spelled, valid_picks,
    words_collide,
};
use vstd::prelude::*;

verus! {

/// `s1` and `s2` have one hash under each of the first `k` pairs of
/// `bases` and `modules`.
pub open spec fn collide_under_first(
    s1: Seq<char>,
    s2: Seq<char>,
    bases: Seq<u64>,
    modules: Seq<u64>,
    k: int,
) -> bool {
    forall|j: int| 0 <= j < k ==> collide(s1, s2, #[trigger] bases[j] as int, modules[j] as int)
}

/// All words of `words` have one hash under each of the first `k` pairs.
pub open spec fn words_collide_under_first(
    words: Seq<Seq<char>>,
    bases: Seq<u64>,
    modules: Seq<u64>,
    k: int,
) -> bool {
    forall|j: int| 0 <= j < k ==> words_collide(words, #[trigger] bases[j] as int, modules[j] as int)
}

/// Every module is positive.
pub open spec fn positive(modules: Seq<u64>) -> bool {
    forall|j: int| 0 <= j < modules.len() ==> #[trigger] modules[j] > 0
}

/// Tells the bases from the modules, which come in turns, a base first.
pub fn split_coefficients(values: &Vec<u64>) -> (pair: (Vec<u64>, Vec<u64>))
    ensures
        pair.0.len() == (values.len() + 1) / 2,
        pair.1.len() == values.len() / 2,
        forall|j: int| 0 <= j < pair.0.len() ==> #[trigger] pair.0[j] == values[2 * j],
        forall|j: int| 0 <= j < pair.1.len() ==> #[trigger] pair.1[j] == values[2 * j + 1],
{
    let mut bases: Vec<u64> = Vec::new();
    let mut modules: Vec<u64> = Vec::new();
    let mut index: usize = 0;
    while index < values.len()
        invariant
            index <= values.len(),
            bases.len() == (index + 1) / 2,
            modules.len() == index / 2,
            forall|j: int| 0 <= j < bases.len() ==> #[trigger] bases[j] == values[2 * j],
            forall|j: int| 0 <= j < modules.len() ==> #[trigger] modules[j] == values[2 * j + 1],
        decreases values.len() - index,
    {
        if index % 2 == 0 {
            bases.push(values[index]);
        } else {
            modules.push(values[index]);
        }
        index = index + 1;
    }
    (bases, modules)
}

/// Each word is spelled from one word of its own alphabet: itself.
pub proof fn lemma_words_spell_themselves(words: Seq<Seq<char>>)
    ensures
        forall|i: int| 0 <= i < words.len() ==> spelled(#[trigger] words[i], words, 1),
{
    assert forall|i: int| 0 <= i < words.len() implies spelled(#[trigger] words[i], words, 1) by {
        let picks = seq![i];
        assert(picks.drop_last() =~= Seq::<int>::empty());
        assert(spell(words, picks.drop_last()) =~= Seq::<char>::empty());
        assert(spell(words, picks) =~= words[i]);
    }
}

/// One round of lifting. The words of `cur` are spelled from `per` words of
/// `base_words` each, are equally wide and have one hash under each of the
/// first `j` pairs. Two strings spelled from `n` words of `cur` that collide
/// under pair `j` are then spelled from `n * per` words of `base_words`, and
/// collide under each of the first `j + 1` pairs.
pub proof fn lemma_lift_step(
    base_words: Seq<Seq<char>>,
    cur: Seq<Seq<char>>,
    per: nat,
    s1: Seq<char>,
    s2: Seq<char>,
    n: nat,
    bases: Seq<u64>,
    modules: Seq<u64>,
    j: int,
)
    requires
        0 <= j < bases.len(),
        bases.len() == modules.len(),
        positive(modules),
        equal_width(cur),
        forall|i: int| 0 <= i < cur.len() ==> spelled(#[trigger] cur[i], base_words, per),
        words_collide_under_first(cur, bases, modules, j),
        spelled(s1, cur, n),
        spelled(s2, cur, n),
        collide(s1, s2, bases[j] as int, modules[j] as int),
    ensures
        spelled(s1, base_words, n * per),
        spelled(s2, base_words, n * per),
        collide_under_first(s1, s2, bases, modules, j + 1),
        words_collide_under_first(seq![s1, s2], bases, modules, j + 1),
{
    let xs = choose|p: Seq<int>|
        p.len() == n && valid_picks(p, cur.len() as int) && s1 == #[trigger] spell(cur, p);
    let ys = choose|p: Seq<int>|
        p.len() == n && valid_picks(p, cur.len() as int) && s2 == #[trigger] spell(cur, p);
    lemma_spell_flatten(base_words, cur, xs, per);
    lemma_spell_flatten(base_words, cur, ys, per);
    assert forall|t: int| 0 <= t < j + 1 implies collide(
        s1,
        s2,
        #[trigger] bases[t] as int,
        modules[t] as int,
    ) by {
        if t < j {
            assert(words_collide(cur, bases[t] as int, modules[t] as int));
            lemma_spell_collide(cur, xs, ys, bases[t] as int, modules[t] as int);
        }
    }
    let pair = seq![s1, s2];
    assert forall|t: int| 0 <= t < j + 1 implies words_collide(
        pair,
        #[trigger] bases[t] as int,
        modules[t] as int,
    ) by {
        assert(collide(s1, s2, bases[t] as int, modules[t] as int));
        assert forall|i: int| 0 <= i < pair.len() implies hash_of(
            #[trigger] pair[i],
            bases[t] as int,
            modules[t] as int,
        ) == hash_of(pair[0], bases[t] as int, modules[t] as int) by {}
    }
}

} // verus!
