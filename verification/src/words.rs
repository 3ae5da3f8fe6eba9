//! Alphabets of equally wide words, and the strings spelled from them.

use crate::hash::{collide, hash_of, lemma_poly_concat, poly};
use vstd::arithmetic::div_mod::{lemma_add_mod_noop, lemma_mul_mod_noop_left};
use vstd::prelude::*;
use vstd::string::*;

verus! {

/// `String::push`: appends one character.
#[verifier::external_body]
pub(crate) fn push_char(s: &mut String, c: char)
    ensures
        final(s)@ == old(s)@.push(c),
{
    s.push(c)
}

/// The texts of the words of an alphabet, in order.
pub open spec fn texts(alphabet: Seq<String>) -> Seq<Seq<char>> {
    Seq::new(alphabet.len(), |i: int| alphabet[i]@)
}

/// Every word is as long as the first one.
pub open spec fn equal_width(words: Seq<Seq<char>>) -> bool {
    forall|i: int| 0 <= i < words.len() ==> (#[trigger] words[i]).len() == words[0].len()
}

/// No word occurs at two places of the alphabet.
pub open spec fn distinct_words(words: Seq<Seq<char>>) -> bool {
    forall|i: int, j: int|
        0 <= i < words.len() && 0 <= j < words.len() && i != j ==> #[trigger] words[i]
            != #[trigger] words[j]
}

/// Every pick is the index of a word among `n` words.
pub open spec fn valid_picks(picks: Seq<int>, n: int) -> bool {
    forall|k: int| 0 <= k < picks.len() ==> 0 <= #[trigger] picks[k] < n
}

/// The words chosen by `picks`, one after the other.
pub open spec fn spell(words: Seq<Seq<char>>, picks: Seq<int>) -> Seq<char>
    decreases picks.len(),
{
    if picks.len() == 0 {
        Seq::empty()
    } else {
        spell(words, picks.drop_last()) + words[picks.last()]
    }
}

/// `s` is a concatenation of `n` words of `words`.
pub open spec fn spelled(s: Seq<char>, words: Seq<Seq<char>>, n: nat) -> bool {
    exists|picks: Seq<int>|
        picks.len() == n && valid_picks(picks, words.len() as int) && s == #[trigger] spell(
            words,
            picks,
        )
}

/// All words of `words` are one and the same text.
pub open spec fn uniform(words: Seq<Seq<char>>) -> bool {
    forall|i: int, j: int|
        0 <= i < words.len() && 0 <= j < words.len() ==> #[trigger] words[i]
            == #[trigger] words[j]
}

/// Whether every word of the alphabet is as long as the first one.
pub fn has_equal_width(alphabet: &Vec<String>) -> (ok: bool)
    ensures
        ok == equal_width(texts(alphabet@)),
{
    if alphabet.len() == 0 {
        return true;
    }
    let width = alphabet[0].as_str().unicode_len();
    let mut i: usize = 1;
    while i < alphabet.len()
        invariant
            1 <= i <= alphabet.len(),
            width == texts(alphabet@)[0].len(),
            forall|k: int| 0 <= k < i ==> (#[trigger] texts(alphabet@)[k]).len() == width,
        decreases alphabet.len() - i,
    {
        if alphabet[i].as_str().unicode_len() != width {
            assert(texts(alphabet@)[i as int].len() != texts(alphabet@)[0].len());
            return false;
        }
        i = i + 1;
    }
    true
}

/// The alphabet of the letters `a` to `z`.
pub open spec fn letters_text() -> Seq<Seq<char>> {
    Seq::new(26, |i: int| seq![(97 + i) as char])
}

/// The alphabet of the letters `a` to `z`, a word each.
pub fn letters() -> (alphabet: Vec<String>)
    ensures
        texts(alphabet@) == letters_text(),
{
    let mut alphabet: Vec<String> = Vec::new();
    let mut i: u8 = 0;
    while i < 26
        invariant
            i <= 26,
            alphabet.len() == i,
            forall|k: int| 0 <= k < i ==> (#[trigger] alphabet[k])@ == seq![(97 + k) as char],
        decreases 26 - i,
    {
        let mut word = String::new();
        push_char(&mut word, (97 + i) as char);
        assert(word@ =~= seq![(97 + i) as char]);
        alphabet.push(word);
        i = i + 1;
    }
    assert(texts(alphabet@) =~= letters_text());
    alphabet
}

/// Over words that are all the same text, picks of one length spell one
/// string.
pub proof fn lemma_uniform_spell(words: Seq<Seq<char>>, p: Seq<int>, q: Seq<int>)
    requires
        uniform(words),
        p.len() == q.len(),
        valid_picks(p, words.len() as int),
        valid_picks(q, words.len() as int),
    ensures
        spell(words, p) == spell(words, q),
    decreases p.len(),
{
    if p.len() > 0 {
        lemma_uniform_spell(words, p.drop_last(), q.drop_last());
        assert(words[p.last()] == words[q.last()]);
    }
}

/// Over words that are all the same text, no two strings of as many words
/// differ.
pub proof fn lemma_uniform_spelled(words: Seq<Seq<char>>, s1: Seq<char>, s2: Seq<char>, n: nat)
    requires
        uniform(words),
        spelled(s1, words, n),
        spelled(s2, words, n),
    ensures
        s1 == s2,
{
    let p = choose|p: Seq<int>|
        p.len() == n && valid_picks(p, words.len() as int) && s1 == #[trigger] spell(words, p);
    let q = choose|q: Seq<int>|
        q.len() == n && valid_picks(q, words.len() as int) && s2 == #[trigger] spell(words, q);
    lemma_uniform_spell(words, p, q);
}

/// All words of `words` have the same hash under `(b, m)`.
pub open spec fn words_collide(words: Seq<Seq<char>>, b: int, m: int) -> bool {
    forall|i: int| 0 <= i < words.len() ==> hash_of(#[trigger] words[i], b, m) == hash_of(words[0], b, m)
}

/// Spelling one more word appends it.
pub proof fn lemma_spell_push(words: Seq<Seq<char>>, picks: Seq<int>, pick: int)
    ensures
        spell(words, picks.push(pick)) == spell(words, picks) + words[pick],
{
    assert(picks.push(pick).drop_last() =~= picks);
}

/// Spelling two runs of picks in a row concatenates what each spells.
pub proof fn lemma_spell_concat(words: Seq<Seq<char>>, p: Seq<int>, q: Seq<int>)
    ensures
        spell(words, p + q) == spell(words, p) + spell(words, q),
    decreases q.len(),
{
    if q.len() == 0 {
        assert(p + q =~= p);
        assert(spell(words, p) + spell(words, q) =~= spell(words, p));
    } else {
        lemma_spell_concat(words, p, q.drop_last());
        assert((p + q).drop_last() =~= p + q.drop_last());
        assert((p + q).last() == q.last());
        assert(spell(words, p + q) =~= spell(words, p) + spell(words, q));
    }
}

/// With words of one width, a spelled string is as long as its picks times
/// that width.
pub proof fn lemma_spell_len(words: Seq<Seq<char>>, picks: Seq<int>)
    requires
        equal_width(words),
        valid_picks(picks, words.len() as int),
    ensures
        spell(words, picks).len() == picks.len() * words[0].len(),
    decreases picks.len(),
{
    if picks.len() > 0 {
        let init = picks.drop_last();
        lemma_spell_len(words, init);
        assert(words[picks.last()].len() == words[0].len());
        assert(picks.len() * words[0].len() == init.len() * words[0].len() + words[0].len())
            by (nonlinear_arith)
            requires
                picks.len() == init.len() + 1,
        ;
    }
}

/// With words of one width, a string spelled from `n` words is `n` widths
/// long.
pub proof fn lemma_spelled_len(s: Seq<char>, words: Seq<Seq<char>>, n: nat)
    requires
        equal_width(words),
        spelled(s, words, n),
    ensures
        s.len() == n * words[0].len(),
{
    let picks = choose|picks: Seq<int>|
        picks.len() == n && valid_picks(picks, words.len() as int) && s == #[trigger] spell(
            words,
            picks,
        );
    lemma_spell_len(words, picks);
}

/// Words that are themselves spelled from `base_words` spell only strings that
/// are spelled from `base_words`.
pub proof fn lemma_spell_flatten(
    base_words: Seq<Seq<char>>,
    words: Seq<Seq<char>>,
    picks: Seq<int>,
    per_word: nat,
)
    requires
        valid_picks(picks, words.len() as int),
        forall|i: int| 0 <= i < words.len() ==> spelled(#[trigger] words[i], base_words, per_word),
    ensures
        spelled(spell(words, picks), base_words, picks.len() * per_word),
    decreases picks.len(),
{
    if picks.len() == 0 {
        let none = Seq::<int>::empty();
        assert(spell(base_words, none) == spell(words, picks));
        assert(picks.len() * per_word == 0) by (nonlinear_arith)
            requires
                picks.len() == 0,
        ;
    } else {
        let init = picks.drop_last();
        lemma_spell_flatten(base_words, words, init, per_word);
        let p = choose|p: Seq<int>|
            p.len() == init.len() * per_word && valid_picks(p, base_words.len() as int) && spell(
                words,
                init,
            ) == #[trigger] spell(base_words, p);
        let word = words[picks.last()];
        assert(spelled(word, base_words, per_word));
        let q = choose|q: Seq<int>|
            q.len() == per_word && valid_picks(q, base_words.len() as int) && word
                == #[trigger] spell(base_words, q);
        lemma_spell_concat(base_words, p, q);
        assert(picks.len() * per_word == init.len() * per_word + per_word) by (nonlinear_arith)
            requires
                picks.len() == init.len() + 1,
        ;
        assert(valid_picks(p + q, base_words.len() as int));
        assert(spell(words, picks) == spell(base_words, p + q));
    }
}

/// Where the words have one width, strings spelled from picks that choose
/// different words at some position are different.
pub proof fn lemma_spell_differs(words: Seq<Seq<char>>, p: Seq<int>, q: Seq<int>, pos: int)
    requires
        equal_width(words),
        valid_picks(p, words.len() as int),
        valid_picks(q, words.len() as int),
        p.len() == q.len(),
        0 <= pos < p.len(),
        words[p[pos]] != words[q[pos]],
    ensures
        spell(words, p) != spell(words, q),
    decreases p.len(),
{
    let sp = spell(words, p.drop_last());
    let sq = spell(words, q.drop_last());
    let wp = words[p.last()];
    let wq = words[q.last()];
    lemma_spell_len(words, p.drop_last());
    lemma_spell_len(words, q.drop_last());
    assert(wp.len() == words[0].len() && wq.len() == words[0].len());
    if spell(words, p) == spell(words, q) {
        let whole = sp + wp;
        assert(whole == sq + wq);
        assert(sp =~= whole.subrange(0, sp.len() as int));
        assert(sq =~= whole.subrange(0, sq.len() as int));
        assert(wp =~= whole.subrange(sp.len() as int, whole.len() as int));
        assert(wq =~= whole.subrange(sq.len() as int, whole.len() as int));
        if pos < p.len() - 1 {
            lemma_spell_differs(words, p.drop_last(), q.drop_last(), pos);
        }
    }
}

/// Congruent summands and congruent factors give congruent results.
proof fn lemma_congruent_step(a1: int, a2: int, c: int, b1: int, b2: int, m: int)
    requires
        m > 0,
        a1 % m == a2 % m,
        b1 % m == b2 % m,
    ensures
        (a1 * c + b1) % m == (a2 * c + b2) % m,
{
    lemma_mul_mod_noop_left(a1, c, m);
    lemma_mul_mod_noop_left(a2, c, m);
    lemma_add_mod_noop(a1 * c, b1, m);
    lemma_add_mod_noop(a2 * c, b2, m);
}

/// Where all words have one width and one hash, two strings spelled from
/// equally many of them have one hash.
pub proof fn lemma_spell_collide(
    words: Seq<Seq<char>>,
    p: Seq<int>,
    q: Seq<int>,
    b: int,
    m: int,
)
    requires
        m > 0,
        equal_width(words),
        words_collide(words, b, m),
        valid_picks(p, words.len() as int),
        valid_picks(q, words.len() as int),
        p.len() == q.len(),
    ensures
        collide(spell(words, p), spell(words, q), b, m),
    decreases p.len(),
{
    if p.len() > 0 {
        let wp = words[p.last()];
        let wq = words[q.last()];
        let sp = spell(words, p.drop_last());
        let sq = spell(words, q.drop_last());
        lemma_spell_collide(words, p.drop_last(), q.drop_last(), b, m);
        lemma_poly_concat(sp, wp, b);
        lemma_poly_concat(sq, wq, b);
        assert(wp.len() == words[0].len() && wq.len() == words[0].len());
        assert(hash_of(wp, b, m) == hash_of(words[0], b, m));
        assert(hash_of(wq, b, m) == hash_of(words[0], b, m));
        lemma_congruent_step(
            poly(sp, b),
            poly(sq, b),
            vstd::arithmetic::power::pow(b, words[0].len()),
            poly(wp, b),
            poly(wq, b),
            m,
        );
    }
}

} // verus!
