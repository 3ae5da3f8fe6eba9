//! Powers of two.

use vstd::prelude::*;

verus! {

/// Two to the power of `e`.
pub open spec fn two_pow(e: nat) -> nat
    decreases e,
{
    if e == 0 {
        1
    } else {
        2 * two_pow((e - 1) as nat)
    }
}

/// Two to the power of `e`, for an exponent of twelve at most.
pub fn power_of_two(e: usize) -> (z: usize)
    requires
        e <= 12,
    ensures
        z == two_pow(e as nat),
        1 <= z <= 0x1000,
{
    let mut z: usize = 1;
    let mut k: usize = 0;
    proof {
        reveal_with_fuel(two_pow, 13);
    }
    while k < e
        invariant
            k <= e <= 12,
            z == two_pow(k as nat),
            1 <= z,
            z * two_pow((12 - k) as nat) == 0x1000,
        decreases e - k,
    {
        assert(two_pow((12 - k) as nat) == 2 * two_pow((12 - k - 1) as nat));
        assert(z * (2 * two_pow((12 - k - 1) as nat)) == (2 * z) * two_pow((12 - k - 1) as nat))
            by (nonlinear_arith);
        assert(two_pow((12 - k - 1) as nat) >= 1) by {
            lemma_two_pow_positive((12 - k - 1) as nat);
        }
        assert(2 * z <= 0x1000) by (nonlinear_arith)
            requires
                (2 * z) * two_pow((12 - k - 1) as nat) == 0x1000,
                two_pow((12 - k - 1) as nat) >= 1,
        ;
        z = 2 * z;
        k = k + 1;
    }
    proof {
        lemma_two_pow_positive((12 - e) as nat);
        assert(z <= 0x1000) by (nonlinear_arith)
            requires
                z * two_pow((12 - e) as nat) == 0x1000,
                two_pow((12 - e) as nat) >= 1,
                z >= 1,
        ;
    }
    z
}

/// A power of two is positive.
pub proof fn lemma_two_pow_positive(e: nat)
    ensures
        two_pow(e) >= 1,
    decreases e,
{
    if e > 0 {
        lemma_two_pow_positive((e - 1) as nat);
    }
}

/// Powers of two grow with the exponent.
pub proof fn lemma_two_pow_bound(e: nat, top: nat)
    requires
        e <= top,
    ensures
        two_pow(e) <= two_pow(top),
        two_pow(11) == 0x800,
    decreases top - e,
{
    reveal_with_fuel(two_pow, 12);
    if e < top {
        lemma_two_pow_bound(e + 1, top);
    }
}

} // verus!
