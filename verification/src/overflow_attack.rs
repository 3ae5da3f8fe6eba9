//! A pair of strings that collides under every polynomial hash computed with
//! 64-bit wrap-around and an odd base.

use crate::hash::{code_point, collide, hash_of, lemma_hash_push, lemma_poly_concat, poly};
use crate::power::{lemma_two_pow_positive, two_pow};
use vstd::arithmetic::div_mod::{
    lemma_add_mod_noop, lemma_fundamental_div_mod, lemma_mod_equivalence, lemma_mod_mod,
    lemma_mod_multiples_basic, lemma_mul_mod_noop, lemma_small_mod,
};
use vstd::arithmetic::power::{lemma_pow1, lemma_pow_adds, pow};
use vstd::prelude::*;
use vstd::std_specs::iter::IteratorSpec;
use vstd::string::*;

verus! {

/// Parity of the number of one bits in the binary expansion of `i`.
pub open spec fn bit_parity(i: nat) -> nat
    decreases i,
{
    if i == 0 {
        0
    } else {
        (bit_parity(i / 2) + i % 2) % 2
    }
}

/// The first `n` letters of the Thue-Morse word over `a` and `b`.
pub open spec fn first_text(n: nat) -> Seq<char> {
    Seq::new(n, |i: int| if bit_parity(i as nat) == 0 { 'a' } else { 'b' })
}

/// The letterwise complement of `first_text(n)`.
pub open spec fn second_text(n: nat) -> Seq<char> {
    Seq::new(n, |i: int| if bit_parity(i as nat) == 0 { 'b' } else { 'a' })
}

/// Whether `n` is a power of two.
pub open spec fn is_power_of_two(n: nat) -> bool
    decreases n,
{
    n == 1 || (n > 1 && n % 2 == 0 && is_power_of_two(n / 2))
}

/// The least power of two that is at least `n`.
pub open spec fn round_up(n: nat) -> nat
    decreases n,
{
    if n <= 1 {
        1
    } else {
        2 * round_up((n + 1) / 2)
    }
}

/// The parity of the number of one bits of `i`.
fn parity(i: usize) -> (p: u8)
    ensures
        p as nat == bit_parity(i as nat),
{
    let mut x: usize = i;
    let mut p: u8 = 0;
    while x > 0
        invariant
            p < 2,
            (bit_parity(x as nat) + p) % 2 == bit_parity(i as nat),
        decreases x,
    {
        p = (p + (x % 2) as u8) % 2;
        x = x / 2;
    }
    p
}

/// A power of two that is at least `n`, and whose half is not, is `n`
/// rounded up.
proof fn lemma_round_up_unique(n: nat, r: nat)
    requires
        is_power_of_two(r),
        n <= r,
        r == 1 || r / 2 < n,
    ensures
        r == round_up(n),
    decreases n,
{
    if n >= 2 {
        lemma_round_up_unique((n + 1) / 2, r / 2);
    }
}

/// The least power of two that is at least `length`.
fn next_power_of_two(length: usize) -> (n: usize)
    requires
        length <= usize::MAX / 2 + 1,
    ensures
        n as nat == round_up(length as nat),
{
    let mut n: usize = 1;
    while n < length
        invariant
            length <= usize::MAX / 2 + 1,
            n >= 1,
            is_power_of_two(n as nat),
            n == 1 || n / 2 < length,
        decreases usize::MAX - n,
    {
        assert(is_power_of_two((2 * n) as nat));
        n = 2 * n;
    }
    proof {
        lemma_round_up_unique(length as nat, n as nat);
    }
    n
}

/// Builds the Thue-Morse pair whose length is `length` rounded up to a power
/// of two.
pub fn find_collision(length: usize) -> (r: Option<(String, String)>)
    requires
        length <= usize::MAX / 2 + 1,
    ensures
        r matches Some((s1, s2)) && s1@ == first_text(round_up(length as nat)) && s2@
            == second_text(round_up(length as nat)),
{
    let n = next_power_of_two(length);
    let mut fi = String::new();
    let mut se = String::new();
    let mut i: usize = 0;
    while i < n
        invariant
            i <= n,
            fi@ == first_text(i as nat),
            se@ == second_text(i as nat),
        decreases n - i,
    {
        let p = parity(i);
        proof {
            reveal_strlit("a");
            reveal_strlit("b");
        }
        if p == 0 {
            fi.append("a");
            se.append("b");
        } else {
            fi.append("b");
            se.append("a");
        }
        i = i + 1;
    }
    Some((fi, se))
}

/// The module of a hash that is computed in 64 bits with wrap-around.
pub open spec fn wrap_module() -> int {
    0x1_0000_0000_0000_0000
}

/// The polynomial hash of `word` with base `base`, computed in 64 bits with
/// wrap-around.
pub fn wrapping_hash(word: &String, base: u64) -> (res: u64)
    ensures
        res as int == hash_of(word@, base as int, wrap_module()),
{
    broadcast use vstd::string::group_string_axioms;

    let mut res: u64 = 0;
    let mut it = word.as_str().chars();
    let ghost mut done: Seq<char> = Seq::empty();
    assert(hash_of(done, base as int, wrap_module()) == 0) by {
        lemma_small_mod(0, wrap_module() as nat);
    }
    loop
        invariant_except_break
            it.obeys_prophetic_iter_laws(),
            it.decrease() is Some,
            done + it.remaining() == word@,
            res as int == hash_of(done, base as int, wrap_module()),
        ensures
            res as int == hash_of(word@, base as int, wrap_module()),
        decreases it.decrease()->0,
    {
        match it.next() {
            Some(c) => {
                proof {
                    lemma_hash_push(done, c, base as int, wrap_module());
                    assert(done.push(c) + it.remaining() =~= word@);
                    done = done.push(c);
                }
                let code = code_point(c);
                let ghost before = res;
                res = res.wrapping_mul(base).wrapping_add(code);
                proof {
                    let m = wrap_module();
                    let product = (before * base) % m;
                    assert(before as nat * base as nat == before * base) by (nonlinear_arith);
                    assert(res as int == (product + code) % m) by {
                        if product + code >= m {
                            lemma_mod_multiples_basic(1, m);
                            lemma_add_mod_noop(product + code - m, m, m);
                            lemma_small_mod((product + code - m) as nat, m as nat);
                        } else {
                            lemma_small_mod((product + code) as nat, m as nat);
                        }
                    }
                    lemma_add_mod_noop(before * base, code as int, m);
                    lemma_small_mod(code as nat, m as nat);
                }
            },
            None => {
                assert(done =~= word@);
                break ;
            },
        }
    }
    res
}

/// The parity of a number is zero or one.
pub proof fn lemma_parity_bit(i: nat)
    ensures
        bit_parity(i) <= 1,
    decreases i,
{
    if i > 0 {
        lemma_parity_bit(i / 2);
    }
}

/// Adding a power of two to a number below it flips the parity.
pub proof fn lemma_parity_flip(i: nat, k: nat)
    requires
        i < two_pow(k),
    ensures
        bit_parity(i + two_pow(k)) == 1 - bit_parity(i),
    decreases k,
{
    if k == 0 {
        assert(bit_parity(1) == (bit_parity(0) + 1) % 2);
    } else {
        let h = two_pow((k - 1) as nat);
        lemma_parity_flip(i / 2, (k - 1) as nat);
        lemma_parity_bit(i / 2);
        let x = i + 2 * h;
        assert(x / 2 == i / 2 + h);
        assert(x % 2 == i % 2);
    }
}

/// Each of the two texts, twice as long, is the text followed by the other.
pub proof fn lemma_texts_double(k: nat)
    ensures
        first_text(two_pow(k + 1)) == first_text(two_pow(k)) + second_text(two_pow(k)),
        second_text(two_pow(k + 1)) == second_text(two_pow(k)) + first_text(two_pow(k)),
{
    let n = two_pow(k);
    assert(two_pow(k + 1) == 2 * n);
    let ff = first_text(n) + second_text(n);
    let ss = second_text(n) + first_text(n);
    assert forall|i: int| 0 <= i < 2 * n implies first_text(2 * n)[i] == ff[i] && second_text(
        2 * n,
    )[i] == ss[i] by {
        if i >= n {
            lemma_parity_flip((i - n) as nat, k);
            lemma_parity_bit((i - n) as nat);
        }
    }
    assert(first_text(2 * n) =~= ff);
    assert(second_text(2 * n) =~= ss);
}

/// By how much the polynomial of the first text of `2^k` letters exceeds
/// that of the second.
pub open spec fn text_gap(k: nat, b: int) -> int {
    poly(first_text(two_pow(k)), b) - poly(second_text(two_pow(k)), b)
}

/// The factor that the gap gains when the texts double from `2^j` letters.
pub open spec fn gap_factor(j: nat, b: int) -> int {
    pow(b, two_pow(j)) - 1
}

/// Doubling the texts multiplies the gap by `b^(2^k) - 1`.
pub proof fn lemma_gap_step(k: nat, b: int)
    ensures
        text_gap(k + 1, b) == text_gap(k, b) * gap_factor(k, b),
{
    let n = two_pow(k);
    let f = first_text(n);
    let s = second_text(n);
    lemma_texts_double(k);
    lemma_poly_concat(f, s, b);
    lemma_poly_concat(s, f, b);
    let shift = pow(b, n);
    assert((poly(f, b) * shift + poly(s, b)) - (poly(s, b) * shift + poly(f, b)) == (poly(f, b)
        - poly(s, b)) * (shift - 1)) by (nonlinear_arith);
}

/// The product of two powers of two.
pub proof fn lemma_two_pow_adds(a: nat, c: nat)
    ensures
        two_pow(a + c) == two_pow(a) * two_pow(c),
    decreases c,
{
    if c > 0 {
        lemma_two_pow_adds(a, (c - 1) as nat);
        assert(two_pow(a + c) == 2 * two_pow((a + c - 1) as nat));
        assert(2 * (two_pow(a) * two_pow((c - 1) as nat)) == two_pow(a) * (2 * two_pow(
            (c - 1) as nat,
        ))) by (nonlinear_arith);
    } else {
        assert(two_pow(a) * 1 == two_pow(a));
    }
}

/// Multiples of `m` and of `n` have a product that is a multiple of `m * n`.
pub proof fn lemma_multiples_mul(a: int, m: int, c: int, n: int)
    requires
        m > 0,
        n > 0,
        a % m == 0,
        c % n == 0,
    ensures
        m * n > 0,
        (a * c) % (m * n) == 0,
{
    lemma_fundamental_div_mod(a, m);
    lemma_fundamental_div_mod(c, n);
    let u = a / m;
    let v = c / n;
    assert(m * n > 0) by (nonlinear_arith)
        requires
            m > 0,
            n > 0,
    ;
    assert(a * c == (u * v) * (m * n)) by (nonlinear_arith)
        requires
            a == m * u,
            c == n * v,
    ;
    lemma_mod_multiples_basic(u * v, m * n);
}

/// The square of an odd number is one more than a multiple of eight.
proof fn lemma_odd_square(b: int)
    requires
        b % 2 == 1,
    ensures
        (b * b - 1) % 8 == 0,
{
    let r = b % 8;
    lemma_mod_mod(b, 2, 4);
    lemma_mul_mod_noop(b, b, 8);
    assert((r * r) % 8 == 1) by {
        if r == 1 {
            assert(r * r == 1);
        } else if r == 3 {
            assert(r * r == 9);
        } else if r == 5 {
            assert(r * r == 25);
        } else {
            assert(r == 7);
            assert(r * r == 49);
        }
    }
    lemma_small_mod(1, 8);
    lemma_mod_equivalence(b * b, 1, 8);
}

/// For an odd base, the factor for `2^j` letters is a multiple of `2^(j+2)`,
/// from `j = 1` on.
pub proof fn lemma_factor_divisible(j: nat, b: int)
    requires
        j >= 1,
        b % 2 == 1,
    ensures
        gap_factor(j, b) % (two_pow(j + 2) as int) == 0,
    decreases j,
{
    if j == 1 {
        reveal_with_fuel(two_pow, 4);
        lemma_pow_adds(b, 1, 1);
        lemma_pow1(b);
        lemma_odd_square(b);
    } else {
        let i = (j - 1) as nat;
        lemma_factor_divisible(i, b);
        let x = pow(b, two_pow(i));
        assert(two_pow(j) == two_pow(i) + two_pow(i));
        lemma_pow_adds(b, two_pow(i), two_pow(i));
        let f = x - 1;
        let m = two_pow(i + 2) as int;
        let half = two_pow(i + 1) as int;
        lemma_two_pow_positive(i + 2);
        lemma_fundamental_div_mod(f, m);
        let q = f / m;
        assert(m == 2 * half);
        assert(two_pow(j + 2) == 2 * m);
        assert(x * x - 1 == (q * (half * q + 1)) * (2 * m)) by (nonlinear_arith)
            requires
                x - 1 == m * q,
                m == 2 * half,
        ;
        lemma_mod_multiples_basic(q * (half * q + 1), 2 * m);
    }
}

/// How often two divides the gap of the texts of `2^k` letters, at least.
pub open spec fn gap_depth(k: nat) -> nat
    decreases k,
{
    if k <= 1 {
        k
    } else {
        gap_depth((k - 1) as nat) + k + 1
    }
}

/// For an odd base the gap of the texts of `2^k` letters is a multiple of two
/// to the power of `gap_depth(k)`.
pub proof fn lemma_gap_divisible(k: nat, b: int)
    requires
        b % 2 == 1,
    ensures
        text_gap(k, b) % (two_pow(gap_depth(k)) as int) == 0,
    decreases k,
{
    if k == 0 {
        assert(two_pow(0) == 1);
        assert(gap_depth(0) == 0);
        assert(text_gap(0, b) % 1 == 0);
        assert(text_gap(k, b) % (two_pow(gap_depth(k)) as int) == 0);
    } else if k == 1 {
        assert(two_pow(1) == 2) by {
            reveal_with_fuel(two_pow, 2);
        }
        assert(two_pow(0) == 1);
        lemma_gap_step(0, b);
        lemma_pow1(b);
        assert(first_text(1) =~= seq!['a']);
        assert(second_text(1) =~= seq!['b']);
        assert(seq!['a'].drop_last() =~= Seq::<char>::empty());
        assert(seq!['b'].drop_last() =~= Seq::<char>::empty());
        assert(poly(seq!['a'], b) == poly(Seq::<char>::empty(), b) * b + 97);
        assert(poly(seq!['b'], b) == poly(Seq::<char>::empty(), b) * b + 98);
        assert(text_gap(0, b) == -1);
        assert(text_gap(1, b) == 1 - b) by (nonlinear_arith)
            requires
                text_gap(1, b) == text_gap(0, b) * gap_factor(0, b),
                text_gap(0, b) == -1,
                gap_factor(0, b) == b - 1,
        ;
        assert(gap_depth(1) == 1);
        assert((1 - b) % 2 == 0);
        assert(text_gap(k, b) % (two_pow(gap_depth(k)) as int) == 0);
    } else {
        let i = (k - 1) as nat;
        lemma_gap_divisible(i, b);
        lemma_factor_divisible(i, b);
        lemma_gap_step(i, b);
        lemma_two_pow_positive(gap_depth(i));
        lemma_two_pow_positive(i + 2);
        lemma_multiples_mul(
            text_gap(i, b),
            two_pow(gap_depth(i)) as int,
            gap_factor(i, b),
            two_pow(i + 2) as int,
        );
        lemma_two_pow_adds(gap_depth(i), i + 2);
        assert(gap_depth(k) == gap_depth(i) + (i + 2));
        assert(text_gap(k, b) == text_gap(i, b) * gap_factor(i, b));
        assert(two_pow(gap_depth(k)) as int == (two_pow(gap_depth(i)) as int) * (two_pow(
            i + 2,
        ) as int));
        assert(text_gap(k, b) % (two_pow(gap_depth(k)) as int) == 0);
    }
}

/// Two to the power of 64.
pub proof fn lemma_two_pow_64()
    ensures
        two_pow(64) == wrap_module(),
{
    assert(two_pow(16) == 0x1_0000) by {
        reveal_with_fuel(two_pow, 17);
    }
    lemma_two_pow_adds(16, 16);
    lemma_two_pow_adds(32, 32);
    assert(two_pow(32) == 0x1_0000_0000) by (nonlinear_arith)
        requires
            two_pow(32) == two_pow(16) * two_pow(16),
            two_pow(16) == 0x1_0000,
    ;
    assert(two_pow(64) == 0x1_0000_0000_0000_0000) by (nonlinear_arith)
        requires
            two_pow(64) == two_pow(32) * two_pow(32),
            two_pow(32) == 0x1_0000_0000,
    ;
}

/// For an odd base and texts of `2^k` letters, `k` at least ten, the gap is
/// a multiple of two to the power of 64.
pub proof fn lemma_gap_wraps(k: nat, b: int)
    requires
        k >= 10,
        b % 2 == 1,
    ensures
        text_gap(k, b) % wrap_module() == 0,
    decreases k,
{
    lemma_two_pow_64();
    if k == 10 {
        reveal_with_fuel(gap_depth, 11);
        assert(gap_depth(10) == 64);
        lemma_gap_divisible(10, b);
    } else {
        let i = (k - 1) as nat;
        lemma_gap_wraps(i, b);
        lemma_gap_step(i, b);
        lemma_multiples_mul(text_gap(i, b), wrap_module(), gap_factor(i, b), 1);
        assert(gap_factor(i, b) % 1 == 0);
    }
}

/// The exponent of the least power of two that is at least `n`.
pub open spec fn round_up_exponent(n: nat) -> nat
    decreases n,
{
    if n <= 1 {
        0
    } else {
        1 + round_up_exponent((n + 1) / 2)
    }
}

/// `round_up` yields a power of two, whose exponent exceeds `k` where `n`
/// exceeds `2^k`.
pub proof fn lemma_round_up_exponent(n: nat, k: nat)
    ensures
        round_up(n) == two_pow(round_up_exponent(n)),
        n > two_pow(k) ==> round_up_exponent(n) > k,
    decreases n, k,
{
    if n > 1 {
        lemma_round_up_exponent((n + 1) / 2, k);
        if k > 0 {
            lemma_round_up_exponent((n + 1) / 2, (k - 1) as nat);
        }
    }
    lemma_two_pow_positive(k);
}

/// The pair that `find_collision` returns for a length above 512 collides
/// under the polynomial hash with any odd base, computed in 64 bits with
/// wrap-around.
pub proof fn lemma_overflow_collision(length: nat, base: int)
    requires
        length > 512,
        base % 2 == 1,
    ensures
        collide(
            first_text(round_up(length)),
            second_text(round_up(length)),
            base,
            wrap_module(),
        ),
{
    reveal_with_fuel(two_pow, 10);
    assert(two_pow(9) == 512);
    lemma_round_up_exponent(length, 9);
    let k = round_up_exponent(length);
    lemma_gap_wraps(k, base);
    lemma_mod_equivalence(
        poly(first_text(two_pow(k)), base),
        poly(second_text(two_pow(k)), base),
        wrap_module(),
    );
}

/// The two texts differ in every letter, and hold no letter but `a` and `b`.
pub proof fn lemma_texts_differ(n: nat)
    ensures
        first_text(n).len() == n,
        second_text(n).len() == n,
        forall|i: int| 0 <= i < n ==> #[trigger] first_text(n)[i] != second_text(n)[i],
        forall|i: int|
            0 <= i < n ==> (#[trigger] first_text(n)[i] == 'a' || first_text(n)[i] == 'b'),
        forall|i: int|
            0 <= i < n ==> (#[trigger] second_text(n)[i] == 'a' || second_text(n)[i] == 'b'),
        n > 0 ==> first_text(n) != second_text(n),
{
    if n > 0 {
        assert(first_text(n)[0] != second_text(n)[0]);
    }
}

} // verus!
