//! Arbitrary-precision natural numbers, modelled as little-endian
//! base-2^32 limb vectors. The value of a number is pinned down by the
//! spec function `limbs_value`; the arithmetic itself (modular
//! exponentiation, gcd, subtraction) is supplied by the `num-bigint`
//! crate through trusted wrappers, while representation handling and
//! comparisons are verified here.
use vstd::prelude::*;

verus! {

use vstd::arithmetic::div_mod::lemma_fundamental_div_mod_converse;
use crate::arith::{pow_nat, gcd_nat};

/// The value of a little-endian sequence of base-2^32 digits.
pub open spec fn limbs_value(s: Seq<u32>) -> nat
    decreases s.len(),
{
    if s.len() == 0 {
        0
    } else {
        s[0] as nat + 0x1_0000_0000 * limbs_value(s.drop_first())
    }
}

/// A digit sequence is canonical when it carries no trailing zero limb,
/// so that every value has exactly one representation.
pub open spec fn canonical(s: Seq<u32>) -> bool {
    s.len() == 0 || s.last() != 0
}

/// An arbitrary-precision natural number.
pub struct Big {
    limbs: Vec<u32>,
}

impl View for Big {
    type V = nat;

    closed spec fn view(&self) -> nat {
        limbs_value(self.limbs@)
    }
}

/// A canonical digit sequence other than the empty one denotes a
/// positive value.
pub proof fn lemma_canonical_nonzero(s: Seq<u32>)
    requires
        canonical(s),
        s.len() > 0,
    ensures
        limbs_value(s) >= 1,
    decreases s.len(),
{
    let tail = s.drop_first();
    if s.len() == 1 {
        assert(tail.len() == 0);
        assert(limbs_value(s) == s[0] as nat);
        assert(s.last() == s[0]);
    } else {
        assert(tail.last() == s.last());
        lemma_canonical_nonzero(tail);
        assert(0x1_0000_0000 * limbs_value(tail) >= 0x1_0000_0000) by (nonlinear_arith)
            requires
                limbs_value(tail) >= 1,
        ;
    }
}

/// Two canonical digit sequences with the same value are the same
/// sequence.
pub proof fn lemma_limbs_value_injective(a: Seq<u32>, b: Seq<u32>)
    requires
        canonical(a),
        canonical(b),
        limbs_value(a) == limbs_value(b),
    ensures
        a == b,
    decreases a.len(),
{
    if a.len() == 0 {
        if b.len() > 0 {
            lemma_canonical_nonzero(b);
        }
        assert(a =~= b);
    } else if b.len() == 0 {
        lemma_canonical_nonzero(a);
        assert(a =~= b);
    } else {
        let ta = a.drop_first();
        let tb = b.drop_first();
        let v = limbs_value(a) as int;
        assert(v == limbs_value(ta) * 0x1_0000_0000 + a[0]) by (nonlinear_arith)
            requires
                v == a[0] as nat + 0x1_0000_0000 * limbs_value(ta),
        ;
        assert(v == limbs_value(tb) * 0x1_0000_0000 + b[0]) by (nonlinear_arith)
            requires
                v == b[0] as nat + 0x1_0000_0000 * limbs_value(tb),
        ;
        lemma_fundamental_div_mod_converse(
            v,
            0x1_0000_0000,
            limbs_value(ta) as int,
            a[0] as int,
        );
        lemma_fundamental_div_mod_converse(
            v,
            0x1_0000_0000,
            limbs_value(tb) as int,
            b[0] as int,
        );
        assert(a[0] == b[0]);
        assert(limbs_value(ta) == limbs_value(tb));
        if a.len() == 1 {
            assert(ta.len() == 0);
        } else {
            assert(ta.last() == a.last());
        }
        if b.len() == 1 {
            assert(tb.len() == 0);
        } else {
            assert(tb.last() == b.last());
        }
        if ta.len() == 0 && tb.len() > 0 {
            lemma_canonical_nonzero(tb);
        }
        if tb.len() == 0 && ta.len() > 0 {
            lemma_canonical_nonzero(ta);
        }
        lemma_limbs_value_injective(ta, tb);
        assert(a =~= b) by {
            assert(a.len() == ta.len() + 1 && b.len() == tb.len() + 1);
            assert forall|i: int| 0 <= i < a.len() implies a[i] == b[i] by {
                if i > 0 {
                    assert(a[i] == ta[i - 1] && b[i] == tb[i - 1]);
                }
            }
        }
    }
}

/// Removing a trailing zero limb does not change the value.
pub proof fn lemma_value_drop_last_zero(s: Seq<u32>)
    requires
        s.len() > 0,
        s.last() == 0,
    ensures
        limbs_value(s) == limbs_value(s.drop_last()),
    decreases s.len(),
{
    let tail = s.drop_first();
    if s.len() == 1 {
        assert(tail.len() == 0);
        assert(limbs_value(tail) == 0);
        assert(limbs_value(s) == s[0] as nat + 0x1_0000_0000 * 0);
        assert(s.drop_last().len() == 0);
    } else {
        assert(tail.last() == s.last());
        lemma_value_drop_last_zero(tail);
        assert(s.drop_last().drop_first() =~= tail.drop_last());
        assert(s.drop_last()[0] == s[0]);
        assert(s.drop_last().len() > 0);
    }
}

impl Big {
    /// The representation is canonical; every verified operation
    /// preserves this, so equal values compare equal limb for limb.
    pub closed spec fn wf(&self) -> bool {
        canonical(self.limbs@)
    }

    /// The number with the given `u64` value.
    pub fn from_u64(x: u64) -> (r: Big)
        ensures
            r@ == x as nat,
            r.wf(),
    {
        if x == 0 {
            let limbs: Vec<u32> = Vec::new();
            Big { limbs }
        } else if x < 0x1_0000_0000 {
            let lo: u32 = x as u32;
            let r = Big { limbs: vec![lo] };
            proof {
                assert(r.limbs@.drop_first().len() == 0);
                assert(limbs_value(r.limbs@.drop_first()) == 0);
                assert(r@ == lo as nat + 0x1_0000_0000 * 0);
            }
            r
        } else {
            let lo64: u64 = x & 0xFFFF_FFFF;
            let hi64: u64 = x >> 32u64;
            assert(lo64 < 0x1_0000_0000 && hi64 < 0x1_0000_0000 && hi64 != 0
                && x == lo64 + 0x1_0000_0000 * hi64) by (bit_vector)
                requires
                    lo64 == x & 0xFFFF_FFFF,
                    hi64 == x >> 32u64,
                    x >= 0x1_0000_0000,
            ;
            let lo: u32 = lo64 as u32;
            let hi: u32 = hi64 as u32;
            let r = Big { limbs: vec![lo, hi] };
            proof {
                let s = r.limbs@;
                assert(s.drop_first().drop_first().len() == 0);
                assert(limbs_value(s.drop_first().drop_first()) == 0);
                assert(s.drop_first()[0] == hi);
                assert(limbs_value(s.drop_first()) == hi as nat + 0x1_0000_0000 * 0);
                assert(r@ == lo as nat + 0x1_0000_0000 * hi as nat);
                assert(s.last() == hi);
            }
            r
        }
    }

    /// The number whose base-2^32 digits, least significant first, are
    /// `limbs`; trailing zero limbs are accepted and trimmed away.
    pub fn from_limbs(limbs: Vec<u32>) -> (r: Big)
        ensures
            r@ == limbs_value(limbs@),
            r.wf(),
    {
        let ghost orig = limbs@;
        let mut v = limbs;
        while v.len() > 0 && v[v.len() - 1] == 0
            invariant
                limbs_value(v@) == limbs_value(orig),
            decreases v.len(),
        {
            proof {
                assert(v@.last() == 0);
                lemma_value_drop_last_zero(v@);
            }
            let _ = v.pop();
        }
        Big { limbs: v }
    }

    /// The digits of the number, least significant first.
    pub fn into_limbs(self) -> (r: Vec<u32>)
        ensures
            limbs_value(r@) == self@,
            self.wf() ==> canonical(r@),
    {
        self.limbs
    }

    /// Whether the value is zero.
    pub fn is_zero(&self) -> (r: bool)
        requires
            self.wf(),
        ensures
            r == (self@ == 0),
    {
        if self.limbs.len() == 0 {
            true
        } else {
            proof {
                lemma_canonical_nonzero(self.limbs@);
            }
            false
        }
    }

    /// Whether two numbers have the same value.
    pub fn eq_value(&self, other: &Big) -> (r: bool)
        requires
            self.wf(),
            other.wf(),
        ensures
            r == (self@ == other@),
    {
        if self.limbs.len() != other.limbs.len() {
            proof {
                if self@ == other@ {
                    lemma_limbs_value_injective(self.limbs@, other.limbs@);
                }
            }
            return false;
        }
        let mut i: usize = 0;
        while i < self.limbs.len()
            invariant
                i <= self.limbs.len(),
                self.limbs.len() == other.limbs.len(),
                self.wf(),
                other.wf(),
                forall|j: int| 0 <= j < i ==> self.limbs@[j] == other.limbs@[j],
            decreases self.limbs.len() - i,
        {
            if self.limbs[i] != other.limbs[i] {
                proof {
                    if self@ == other@ {
                        lemma_limbs_value_injective(self.limbs@, other.limbs@);
                    }
                }
                return false;
            }
            i += 1;
        }
        proof {
            assert(self.limbs@ =~= other.limbs@);
        }
        true
    }
}

/// Relies on num_bigint::BigUint::modpow: returns
/// `(base ^ exponent) % modulus`, panicking only on a zero modulus,
/// which the precondition rules out. `BigUint::from_slice` and
/// `to_u32_digits` exchange little-endian base-2^32 digits, the
/// latter without trailing zeros.
#[verifier::external_body]
pub(crate) fn big_pow_mod(base: &Big, exponent: &Big, modulus: &Big) -> (r: Big)
    requires
        modulus@ >= 1,
    ensures
        r@ == pow_nat(base@, exponent@) % modulus@,
        r.wf(),
{
    let b = num_bigint::BigUint::from_slice(&base.limbs);
    let e = num_bigint::BigUint::from_slice(&exponent.limbs);
    let m = num_bigint::BigUint::from_slice(&modulus.limbs);
    Big { limbs: b.modpow(&e, &m).to_u32_digits() }
}

/// Relies on num_integer::Integer::gcd for num_bigint::BigUint: the
/// greatest common divisor of the two values, with gcd(x, 0) == x and
/// gcd(0, y) == y, which is exactly Euclid's `gcd_nat`.
#[verifier::external_body]
pub(crate) fn big_gcd(a: &Big, b: &Big) -> (r: Big)
    ensures
        r@ == gcd_nat(a@, b@),
        r.wf(),
{
    let x = num_bigint::BigUint::from_slice(&a.limbs);
    let y = num_bigint::BigUint::from_slice(&b.limbs);
    Big { limbs: num_integer::Integer::gcd(&x, &y).to_u32_digits() }
}

/// Relies on num_bigint::BigUint's subtraction of a small integer,
/// which panics on underflow; the precondition keeps the argument
/// positive.
#[verifier::external_body]
pub(crate) fn big_sub_one(a: &Big) -> (r: Big)
    requires
        a@ >= 1,
    ensures
        r@ == a@ - 1,
        r.wf(),
{
    let x = num_bigint::BigUint::from_slice(&a.limbs);
    Big { limbs: (x - 1u32).to_u32_digits() }
}

} // verus!
