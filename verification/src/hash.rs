//! The polynomial hash that the solvers attack, as a mathematical function.

use vstd::arithmetic::div_mod::{lemma_add_mod_noop, lemma_mul_mod_noop_left, lemma_small_mod};
use vstd::arithmetic::power::{lemma_pow0, lemma_pow1, lemma_pow_adds, pow};
use vstd::prelude::*;
use vstd::std_specs::iter::IteratorSpec;
use vstd::string::*;

verus! {

/// Value of the polynomial whose coefficients are the code points of `s`,
/// highest power first, at the point `b`: the sum of `s[i] * b^(|s| - 1 - i)`.
pub open spec fn poly(s: Seq<char>, b: int) -> int
    decreases s.len(),
{
    if s.len() == 0 {
        0
    } else {
        poly(s.drop_last(), b) * b + s.last() as int
    }
}

/// The polynomial hash of `s` with base `b`, reduced modulo `m`.
pub open spec fn hash_of(s: Seq<char>, b: int, m: int) -> int {
    poly(s, b) % m
}

/// Two strings collide under `(b, m)` when their hashes agree.
pub open spec fn collide(s1: Seq<char>, s2: Seq<char>, b: int, m: int) -> bool {
    hash_of(s1, b, m) == hash_of(s2, b, m)
}

/// The polynomial of a concatenation: the first part is shifted up by the
/// length of the second.
pub proof fn lemma_poly_concat(s: Seq<char>, t: Seq<char>, b: int)
    ensures
        poly(s + t, b) == poly(s, b) * pow(b, t.len()) + poly(t, b),
    decreases t.len(),
{
    if t.len() == 0 {
        assert(s + t =~= s);
        lemma_pow0(b);
    } else {
        let init = t.drop_last();
        lemma_poly_concat(s, init, b);
        assert((s + t).drop_last() =~= s + init);
        assert((s + t).last() == t.last());
        lemma_pow_unfold_last(b, t.len());
        assert(poly(s, b) * pow(b, init.len()) * b == poly(s, b) * (pow(b, init.len()) * b))
            by (nonlinear_arith);
        assert((poly(s, b) * pow(b, init.len()) + poly(init, b)) * b == poly(s, b) * pow(
            b,
            init.len(),
        ) * b + poly(init, b) * b) by (nonlinear_arith);
    }
}

/// A power is the next lower power times the base.
pub proof fn lemma_pow_unfold_last(b: int, e: nat)
    requires
        e > 0,
    ensures
        pow(b, e) == pow(b, (e - 1) as nat) * b,
{
    lemma_pow_adds(b, (e - 1) as nat, 1);
    lemma_pow1(b);
}

/// One step of Horner's rule, carried out on residues.
pub proof fn lemma_hash_push(s: Seq<char>, c: char, b: int, m: int)
    requires
        m > 0,
    ensures
        hash_of(s.push(c), b, m) == (hash_of(s, b, m) * b + c as int) % m,
{
    assert(s.push(c).drop_last() =~= s);
    assert(s.push(c).last() == c);
    lemma_mul_mod_noop_left(poly(s, b), b, m);
    lemma_add_mod_noop(poly(s, b) * b, c as int, m);
    lemma_add_mod_noop((poly(s, b) % m) * b, c as int, m);
}

/// The polynomial hash of `word` with base `base`, modulo `module`, for
/// coefficients of any size.
pub fn hash_word(word: &String, base: u64, module: u64) -> (res: u64)
    requires
        module > 0,
    ensures
        res as int == hash_of(word@, base as int, module as int),
{
    broadcast use vstd::string::group_string_axioms;

    let mut res: u64 = 0;
    let mut it = word.as_str().chars();
    let ghost mut done: Seq<char> = Seq::empty();
    assert(hash_of(done, base as int, module as int) == 0) by {
        lemma_small_mod(0, module as nat);
    }
    loop
        invariant_except_break
            module > 0,
            it.obeys_prophetic_iter_laws(),
            it.decrease() is Some,
            done + it.remaining() == word@,
            res as int == hash_of(done, base as int, module as int),
            res < module,
        ensures
            res as int == hash_of(word@, base as int, module as int),
        decreases it.decrease()->0,
    {
        match it.next() {
            Some(c) => {
                proof {
                    lemma_hash_push(done, c, base as int, module as int);
                    assert(done.push(c) + it.remaining() =~= word@);
                    done = done.push(c);
                }
                let code = code_point(c);
                assert(res * base <= 0xffff_ffff_ffff_fffe * 0xffff_ffff_ffff_ffff)
                    by (nonlinear_arith)
                    requires
                        res <= 0xffff_ffff_ffff_fffe,
                        base <= 0xffff_ffff_ffff_ffff,
                ;
                let wide: u128 = (res as u128 * base as u128 + code as u128) % (module as u128);
                res = wide as u64;
            },
            None => {
                assert(done =~= word@);
                break ;
            },
        }
    }
    res
}

/// The code point of `c` as a number.
pub fn code_point(c: char) -> (code: u64)
    ensures
        code as int == c as int,
        code <= 0x10ffff,
{
    c as u64
}

} // verus!
