//! Randomised meet-in-the-middle search for a collision under one
//! polynomial hash, and its lifting to several hashes.

use crate::hash::{code_point, collide, hash_of, lemma_hash_push, lemma_pow_unfold_last};
use crate::lift::{
    collide_under_first, lemma_lift_step, lemma_words_spell_themselves,
    words_collide_under_first,
};
use crate::random::{gen_index, thread_rng};
use crate::words::{
    equal_width, has_equal_width, lemma_spell_concat, lemma_spell_push, lemma_spelled_len,
    lemma_uniform_spelled,
    spell, spelled, texts, uniform, valid_picks, words_collide,
};
use std::collections::HashMap;
use vstd::arithmetic::div_mod::{lemma_fundamental_div_mod, lemma_mod_pos_bound, lemma_small_mod};
use vstd::arithmetic::power::{lemma_pow0, lemma_pow1, lemma_pow_positive, pow};
use vstd::prelude::*;
use vstd::std_specs::iter::IteratorSpec;
use vstd::string::*;

verus! {

/// Largest value that a base or a module of this solver may take.
pub const MAX_COEFFICIENT: u64 = 0xffff_ffff;

/// How many words one random number can choose among `n`, up to `limit`,
/// and the range that the number is to be drawn from: `n` to the power of
/// that count.
pub fn draw_size(n: usize, limit: u64) -> (size: (u64, usize))
    requires
        n >= 1,
        limit >= 1,
    ensures
        1 <= size.0 <= limit,
        size.1 >= 1,
        size.1 as int == pow(n as int, size.0 as nat),
        size.0 == limit || size.1 * n > usize::MAX,
{
    let mut count: u64 = 1;
    let mut range: usize = n;
    proof {
        lemma_pow1(n as int);
    }
    while count < limit && range <= usize::MAX / n
        invariant
            n >= 1,
            1 <= count <= limit,
            range >= 1,
            range as int == pow(n as int, count as nat),
        ensures
            1 <= count <= limit,
            range >= 1,
            range as int == pow(n as int, count as nat),
            count == limit || range > usize::MAX / n,
        decreases limit - count,
    {
        proof {
            lemma_pow_unfold_last(n as int, (count + 1) as nat);
            assert(range * n <= usize::MAX) by (nonlinear_arith)
                requires
                    range <= usize::MAX / n,
                    n >= 1,
            ;
            assert(range * n >= 1) by (nonlinear_arith)
                requires
                    range >= 1,
                    n >= 1,
            ;
        }
        range = range * n;
        count = count + 1;
    }
    proof {
        if count < limit {
            assert(range * n > usize::MAX) by (nonlinear_arith)
                requires
                    range > usize::MAX / n,
                    n >= 1,
            ;
        }
    }
    (count, range)
}

/// The words that the number `draw` chooses among `n`: its `count` lowest
/// digits in base `n`, the lowest first.
pub open spec fn digit_picks(draw: int, n: int, count: nat) -> Seq<int>
    decreases count,
{
    if count == 0 {
        Seq::empty()
    } else {
        seq![draw % n] + digit_picks(draw / n, n, (count - 1) as nat)
    }
}

/// The digits of a number are as many as asked for, and each names a word.
pub proof fn lemma_digit_picks(draw: int, n: int, count: nat)
    requires
        draw >= 0,
        n > 0,
    ensures
        digit_picks(draw, n, count).len() == count,
        valid_picks(digit_picks(draw, n, count), n),
    decreases count,
{
    if count > 0 {
        lemma_digit_picks(draw / n, n, (count - 1) as nat);
        lemma_fundamental_div_mod(draw, n);
        lemma_mod_pos_bound(draw, n);
        assert(draw / n >= 0) by (nonlinear_arith)
            requires
                draw >= 0,
                n > 0,
        ;
    }
}

/// Appends to `word` the words of `alphabet` that the number `draw` chooses:
/// `count` of them, by the digits of `draw` in the base of the size of the
/// alphabet, the lowest digit first.
pub fn append_drawn(word: &mut String, draw: usize, count: u64, alphabet: &Vec<String>)
    requires
        alphabet.len() > 0,
    ensures
        final(word)@ == old(word)@ + spell(
            texts(alphabet@),
            digit_picks(draw as int, alphabet.len() as int, count as nat),
        ),
{
    let n = alphabet.len();
    let ghost words = texts(alphabet@);
    let ghost mut picks: Seq<int> = Seq::empty();
    let mut digits = draw;
    let mut i: u64 = 0;
    proof {
        assert(picks + digit_picks(draw as int, n as int, count as nat) =~= digit_picks(
            draw as int,
            n as int,
            count as nat,
        ));
        assert(old(word)@ + spell(words, picks) =~= old(word)@);
    }
    while i < count
        invariant
            n == alphabet.len(),
            n > 0,
            words == texts(alphabet@),
            i <= count,
            picks.len() == i,
            word@ == old(word)@ + spell(words, picks),
            digit_picks(draw as int, n as int, count as nat) == picks + digit_picks(
                digits as int,
                n as int,
                (count - i) as nat,
            ),
        decreases count - i,
    {
        let idx = digits % n;
        proof {
            lemma_spell_push(words, picks, idx as int);
            assert(picks + digit_picks(digits as int, n as int, (count - i) as nat)
                =~= picks.push(idx as int) + digit_picks(
                (digits / n) as int,
                n as int,
                (count - i - 1) as nat,
            ));
            assert(old(word)@ + spell(words, picks) + words[idx as int] =~= old(word)@ + (spell(
                words,
                picks,
            ) + words[idx as int]));
            picks = picks.push(idx as int);
        }
        digits = digits / n;
        word.append(alphabet[idx].as_str());
        i = i + 1;
    }
    proof {
        assert(picks + digit_picks(digits as int, n as int, 0) =~= picks);
    }
}

/// A string of `len` words drawn from `alphabet` at random, with repetition.
/// One random number chooses as many words as its range allows, as
/// `append_drawn` tells.
pub fn gen_string(len: u64, alphabet: &Vec<String>) -> (word: String)
    requires
        alphabet.len() > 0,
    ensures
        spelled(word@, texts(alphabet@), len as nat),
        equal_width(texts(alphabet@)) ==> word@.len() == len * texts(alphabet@)[0].len(),
{
    let n = alphabet.len();
    let ghost words = texts(alphabet@);
    let mut rng = thread_rng();
    let mut word = String::new();
    let ghost mut picks: Seq<int> = Seq::empty();
    let mut done: u64 = 0;
    while done < len
        invariant
            n == alphabet.len(),
            n > 0,
            words == texts(alphabet@),
            done <= len,
            picks.len() == done,
            valid_picks(picks, n as int),
            word@ == spell(words, picks),
        decreases len - done,
    {
        let (count, range) = draw_size(n, len - done);
        let draw = gen_index(&mut rng, range);
        append_drawn(&mut word, draw, count, alphabet);
        proof {
            let drawn = digit_picks(draw as int, n as int, count as nat);
            lemma_digit_picks(draw as int, n as int, count as nat);
            lemma_spell_concat(words, picks, drawn);
            picks = picks + drawn;
        }
        done = done + count;
    }
    proof {
        if equal_width(words) {
            lemma_spelled_len(word@, words, len as nat);
        }
    }
    word
}

/// The polynomial hash of `word` with base `base`, modulo `module`.
pub fn get_hash(word: &String, base: u64, module: u64) -> (res: u64)
    requires
        base <= MAX_COEFFICIENT,
        0 < module <= MAX_COEFFICIENT,
    ensures
        res as int == hash_of(word@, base as int, module as int),
{
    broadcast use vstd::string::group_string_axioms;

    let mut res: u64 = 0;
    let mut it = word.as_str().chars();
    let ghost mut done: Seq<char> = Seq::empty();
    assert(hash_of(done, base as int, module as int) == 0) by {
        lemma_small_mod(0, module as nat);
    }
    loop
        invariant_except_break
            base <= MAX_COEFFICIENT,
            0 < module <= MAX_COEFFICIENT,
            it.obeys_prophetic_iter_laws(),
            it.decrease() is Some,
            done + it.remaining() == word@,
            res as int == hash_of(done, base as int, module as int),
            res < module,
        ensures
            res as int == hash_of(word@, base as int, module as int),
        decreases it.decrease()->0,
    {
        match it.next() {
            Some(c) => {
                proof {
                    lemma_hash_push(done, c, base as int, module as int);
                    assert(done.push(c) + it.remaining() =~= word@);
                    done = done.push(c);
                }
                let code = code_point(c);
                assert(res * base <= 0xffff_fffe * 0xffff_ffff) by (nonlinear_arith)
                    requires
                        res <= 0xffff_fffe,
                        base <= 0xffff_ffff,
                ;
                res = (res * base + code) % module;
            },
            None => {
                assert(done =~= word@);
                break ;
            },
        }
    }
    res
}

/// `r` is the integer square root of `n`.
pub open spec fn is_sqrt(n: int, r: int) -> bool {
    0 <= r && r * r <= n < (r + 1) * (r + 1)
}

/// The integer square root of `n`: the number of samples that one trial
/// length is given.
pub fn sample_bound(n: u64) -> (r: u64)
    requires
        n <= MAX_COEFFICIENT,
    ensures
        is_sqrt(n as int, r as int),
        r <= 0xffff,
{
    let mut r: u64 = 0;
    loop
        invariant
            n <= MAX_COEFFICIENT,
            r <= 0xffff,
            r * r <= n,
        ensures
            is_sqrt(n as int, r as int),
        decreases 0x1_0000 - r,
    {
        let next = r + 1;
        assert(next * next <= 0x1_0000_0000) by (nonlinear_arith)
            requires
                next <= 0x1_0000,
        ;
        if next * next > n {
            break ;
        }
        assert(next <= 0xffff) by (nonlinear_arith)
            requires
                next * next <= 0xffff_ffff,
        ;
        r = next;
    }
    r
}

/// What a single-hash solver owes for a pair that it returns: the two strings
/// differ, are spelled from `n` words of `words` each, and have one hash
/// under `(b, m)`.
pub open spec fn is_answer(
    s1: Seq<char>,
    s2: Seq<char>,
    words: Seq<Seq<char>>,
    n: nat,
    b: int,
    m: int,
) -> bool {
    &&& s1 != s2
    &&& s1.len() == s2.len()
    &&& spelled(s1, words, n)
    &&& spelled(s2, words, n)
    &&& collide(s1, s2, b, m)
}

/// Files `word` under `hash`, and reports the word that was filed there
/// before if it is another one.
pub fn record_sample(samples: &mut HashMap<u64, String>, hash: u64, word: String) -> (r: Option<
    (String, String),
>)
    ensures
        final(samples)@ == old(samples)@.insert(hash, word),
        r == if old(samples)@.contains_key(hash) && old(samples)@[hash]@ != word@ {
            Some((word, old(samples)@[hash]))
        } else {
            None
        },
{
    broadcast use vstd::std_specs::hash::group_hash_axioms;

    if let Some(coll) = samples.insert(hash, word.clone()) {
        if word != coll {
            return Some((word, coll));
        }
    }
    None
}

/// Every sample on file is spelled from `n` words and filed under its hash.
pub open spec fn samples_valid(
    samples: Map<u64, String>,
    words: Seq<Seq<char>>,
    n: nat,
    b: int,
    m: int,
) -> bool {
    forall|h: u64| #[trigger]
        samples.contains_key(h) ==> spelled(samples[h]@, words, n) && hash_of(samples[h]@, b, m)
            == h as int
}

/// Searches for two different strings over `alphabet` with one hash under
/// `(base, module)`, by drawing random strings of 6, 7, ..., 63 words, as many
/// of each length as the square root of `module`, until two of one length
/// meet. Whether two meet is for the draws to decide, but for two cases in
/// which none can: a module under 4 leaves each length one draw, and words
/// that are all the same spell one string only.
pub fn find_single_collision(base: u64, module: u64, alphabet: &Vec<String>) -> (r: Option<
    (String, String),
>)
    requires
        base <= MAX_COEFFICIENT,
        0 < module <= MAX_COEFFICIENT,
        alphabet.len() > 0,
        equal_width(texts(alphabet@)),
    ensures
        r matches Some(pair) ==> exists|n: nat|
            6 <= n < 64 && #[trigger] is_answer(
                pair.0@,
                pair.1@,
                texts(alphabet@),
                n,
                base as int,
                module as int,
            ),
        module < 4 ==> r is None,
        uniform(texts(alphabet@)) ==> r is None,
{
    let bound = sample_bound(module) as usize;
    proof {
        if module < 4 {
            assert(bound < 2) by (nonlinear_arith)
                requires
                    bound * bound <= module,
                    module < 4,
            ;
        }
    }
    let mut samples: HashMap<u64, String> = HashMap::with_capacity(bound);
    let ghost words = texts(alphabet@);
    let mut len: u64 = 6;
    while len < 64
        invariant
            base <= MAX_COEFFICIENT,
            0 < module <= MAX_COEFFICIENT,
            alphabet.len() > 0,
            equal_width(words),
            words == texts(alphabet@),
            6 <= len <= 64,
            module < 4 ==> bound < 2,
        decreases 64 - len,
    {
        samples.clear();
        let mut k: usize = 0;
        while k < bound
            invariant
                base <= MAX_COEFFICIENT,
                0 < module <= MAX_COEFFICIENT,
                alphabet.len() > 0,
                equal_width(words),
                words == texts(alphabet@),
                6 <= len < 64,
                k <= bound,
                module < 4 ==> bound < 2,
                k == 0 ==> samples@ =~= Map::empty(),
                samples_valid(samples@, words, len as nat, base as int, module as int),
            decreases bound - k,
        {
            let word = gen_string(len, alphabet);
            let hash = get_hash(&word, base, module);
            let ghost before = samples@;
            if let Some(pair) = record_sample(&mut samples, hash, word) {
                proof {
                    assert(before.contains_key(hash));
                    assert(k > 0);
                    if uniform(words) {
                        lemma_uniform_spelled(words, pair.0@, pair.1@, len as nat);
                    }
                    lemma_spelled_len(pair.0@, words, len as nat);
                    lemma_spelled_len(pair.1@, words, len as nat);
                    assert(is_answer(
                        pair.0@,
                        pair.1@,
                        words,
                        len as nat,
                        base as int,
                        module as int,
                    ));
                }
                return Some(pair);
            }
            assert(samples_valid(samples@, words, len as nat, base as int, module as int)) by {
                assert forall|h: u64| #[trigger] samples@.contains_key(h) implies spelled(
                    samples@[h]@,
                    words,
                    len as nat,
                ) && hash_of(samples@[h]@, base as int, module as int) == h as int by {
                    if h != hash {
                        assert(before.contains_key(h));
                    }
                }
            }
            k = k + 1;
        }
        len = len + 1;
    }
    None
}

/// Every base and module is one that this solver accepts.
pub open spec fn coefficients_valid(bases: Seq<u64>, modules: Seq<u64>) -> bool {
    &&& bases.len() == modules.len()
    &&& forall|j: int| 0 <= j < bases.len() ==> #[trigger] bases[j] <= MAX_COEFFICIENT
    &&& forall|j: int| 0 <= j < modules.len() ==> 0 < #[trigger] modules[j] <= MAX_COEFFICIENT
}

/// Whether `find_collision` takes these bases, modules and alphabet: a pair
/// of a base and a module at least, each of 32 bits and no module zero, and
/// an alphabet of a word or more, all of one width.
pub fn accepts(bases: &Vec<u64>, modules: &Vec<u64>, alphabet: &Vec<String>) -> (ok: bool)
    ensures
        ok == (bases.len() >= 1 && coefficients_valid(bases@, modules@) && alphabet.len() > 0
            && equal_width(texts(alphabet@))),
{
    if bases.len() < 1 || bases.len() != modules.len() || alphabet.len() == 0 {
        return false;
    }
    let mut j: usize = 0;
    while j < bases.len()
        invariant
            j <= bases.len(),
            bases.len() == modules.len(),
            forall|k: int| 0 <= k < j ==> #[trigger] bases[k] <= MAX_COEFFICIENT,
            forall|k: int| 0 <= k < j ==> 0 < #[trigger] modules[k] <= MAX_COEFFICIENT,
        decreases bases.len() - j,
    {
        if bases[j] > MAX_COEFFICIENT || modules[j] == 0 || modules[j] > MAX_COEFFICIENT {
            return false;
        }
        j = j + 1;
    }
    has_equal_width(alphabet)
}

/// Searches for two different strings over `init_alphabet` that have one hash
/// under every pair `(bases[j], modules[j])`. The pairs are taken in order:
/// the pair found for one serves as the alphabet for the next, and the search
/// ends without a pair as soon as one of them yields none. Each pair of a
/// base and a module multiplies the number of words by 6 to 63.
pub fn find_collision(bases: Vec<u64>, modules: Vec<u64>, init_alphabet: Vec<String>) -> (r: Option<
    (String, String),
>)
    requires
        bases.len() >= 1,
        coefficients_valid(bases@, modules@),
        init_alphabet.len() > 0,
        equal_width(texts(init_alphabet@)),
    ensures
        r matches Some(pair) ==> {
            &&& pair.0@ != pair.1@
            &&& pair.0@.len() == pair.1@.len()
            &&& exists|n: nat| #[trigger]
                spelled(pair.0@, texts(init_alphabet@), n) && spelled(
                    pair.1@,
                    texts(init_alphabet@),
                    n,
                ) && pow(6, bases.len() as nat) <= n <= pow(63, bases.len() as nat)
            &&& collide_under_first(pair.0@, pair.1@, bases@, modules@, bases.len() as int)
        },
        (exists|j: int| 0 <= j < modules.len() && #[trigger] modules[j] < 4) ==> r is None,
        uniform(texts(init_alphabet@)) ==> r is None,
{
    let ghost base_words = texts(init_alphabet@);
    let ghost mut per: nat = 1;
    proof {
        lemma_words_spell_themselves(base_words);
        lemma_pow0(6);
        lemma_pow0(63);
    }
    let mut alphabet = init_alphabet;
    let mut j: usize = 0;
    while j < bases.len()
        invariant
            base_words == texts(init_alphabet@),
            bases.len() >= 1,
            coefficients_valid(bases@, modules@),
            j <= bases.len(),
            alphabet.len() > 0,
            equal_width(texts(alphabet@)),
            forall|i: int|
                0 <= i < alphabet.len() ==> spelled(
                    #[trigger] texts(alphabet@)[i],
                    base_words,
                    per,
                ),
            words_collide_under_first(texts(alphabet@), bases@, modules@, j as int),
            j > 0 ==> alphabet.len() == 2 && alphabet[0]@ != alphabet[1]@,
            forall|i: int| 0 <= i < j ==> #[trigger] modules[i] >= 4,
            pow(6, j as nat) <= per <= pow(63, j as nat),
        decreases bases.len() - j,
    {
        match find_single_collision(bases[j], modules[j], &alphabet) {
            Some((fi, se)) => {
                proof {
                    let cur = texts(alphabet@);
                    let n = choose|n: nat|
                        6 <= n < 64 && #[trigger] is_answer(
                            fi@,
                            se@,
                            cur,
                            n,
                            bases[j as int] as int,
                            modules[j as int] as int,
                        );
                    lemma_lift_step(base_words, cur, per, fi@, se@, n, bases@, modules@, j as int);
                    lemma_pow_unfold_last(6, (j + 1) as nat);
                    lemma_pow_unfold_last(63, (j + 1) as nat);
                    lemma_pow_positive(6, j as nat);
                    assert(pow(6, j as nat) * 6 <= n * per <= pow(63, j as nat) * 63)
                        by (nonlinear_arith)
                        requires
                            6 <= n <= 63,
                            0 < pow(6, j as nat) <= per <= pow(63, j as nat),
                    ;
                    per = n * per;
                }
                alphabet = vec![fi, se];
                proof {
                    assert(texts(alphabet@) =~= seq![fi@, se@]);
                }
            },
            None => {
                return None;
            },
        }
        j = j + 1;
    }
    let ghost last = texts(alphabet@);
    let se = alphabet.remove(1);
    let fi = alphabet.remove(0);
    proof {
        assert(last[0] == fi@ && last[1] == se@);
        assert(spelled(last[0], base_words, per) && spelled(last[1], base_words, per));
        assert forall|t: int| 0 <= t < bases.len() implies collide(
            fi@,
            se@,
            #[trigger] bases@[t] as int,
            modules@[t] as int,
        ) by {
            assert(words_collide(last, bases@[t] as int, modules@[t] as int));
            assert(hash_of(last[1], bases@[t] as int, modules@[t] as int) == hash_of(
                last[0],
                bases@[t] as int,
                modules@[t] as int,
            ));
        }
        assert(collide_under_first(fi@, se@, bases@, modules@, bases.len() as int));
        assert(spelled(fi@, texts(init_alphabet@), per) && spelled(
            se@,
            texts(init_alphabet@),
            per,
        ) && pow(6, bases.len() as nat) <= per <= pow(63, bases.len() as nat));
        assert(fi@.len() == se@.len());
        if uniform(base_words) {
            lemma_uniform_spelled(base_words, fi@, se@, per);
        }
        assert(j == bases.len());
        assert(exists|n: nat| #[trigger]
            spelled(fi@, texts(init_alphabet@), n) && spelled(se@, texts(init_alphabet@), n)
                && pow(6, bases.len() as nat) <= n <= pow(63, bases.len() as nat));
    }
    Some((fi, se))
}

} // verus!
