//! Mathematical definitions used by the contracts: natural-number
//! exponentiation, the greatest common divisor, and divisibility,
//! together with the facts about them that the factoring logic needs.
use vstd::prelude::*;

verus! {

use vstd::arithmetic::div_mod::lemma_fundamental_div_mod;

/// `b` raised to the power `e`, over the mathematical naturals.
pub open spec fn pow_nat(b: nat, e: nat) -> nat
    decreases e,
{
    if e == 0 {
        1
    } else {
        b * pow_nat(b, (e - 1) as nat)
    }
}

/// The greatest common divisor, by Euclid's recursion.
pub open spec fn gcd_nat(a: nat, b: nat) -> nat
    decreases b,
{
    if b == 0 {
        a
    } else {
        gcd_nat(b, a % b)
    }
}

/// `d` divides `n`.
pub open spec fn divides(d: nat, n: nat) -> bool {
    exists|k: nat| n == #[trigger] (k * d)
}

/// The greatest common divisor divides both of its arguments.
pub proof fn lemma_gcd_divides(a: nat, b: nat)
    ensures
        divides(gcd_nat(a, b), a),
        divides(gcd_nat(a, b), b),
    decreases b,
{
    if b == 0 {
        assert(a == 1 * a) by (nonlinear_arith);
        assert(0 == 0 * a) by (nonlinear_arith);
    } else {
        let g = gcd_nat(b, a % b);
        lemma_gcd_divides(b, a % b);
        let k1 = choose|k: nat| b == #[trigger] (k * g);
        let k2 = choose|k: nat| (a % b) == #[trigger] (k * g);
        lemma_fundamental_div_mod(a as int, b as int);
        assert(a as int == b * ((a as int) / (b as int)) + (a as int) % (b as int));
        let q = (a as int) / (b as int);
        assert(q >= 0) by (nonlinear_arith)
            requires
                a >= 0,
                b > 0,
                a as int == b * q + (a as int) % (b as int),
                0 <= (a as int) % (b as int) < b,
        ;
        assert(a == (q * k1 + k2) * g) by (nonlinear_arith)
            requires
                a as int == (b as int) * q + ((a % b) as int),
                b == k1 * g,
                a % b == k2 * g,
        ;
        assert(a == ((q * k1 + k2) as nat) * g);
    }
}

/// A divisor of a positive number is positive and no larger than it.
pub proof fn lemma_divisor_at_most(d: nat, n: nat)
    requires
        divides(d, n),
        n >= 1,
    ensures
        1 <= d <= n,
{
    let k = choose|k: nat| n == #[trigger] (k * d);
    assert(k * d >= 1 ==> d >= 1 && k >= 1) by (nonlinear_arith);
    assert(k >= 1 && d >= 1 ==> k * d >= d) by (nonlinear_arith);
}

} // verus!
