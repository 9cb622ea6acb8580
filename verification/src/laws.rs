//! Properties of the stage runner and the orchestrator, stated over
//! the spec-level model (`run_spec`, `acc_after`, `pm1_spec`) that the
//! executable functions are proved to implement.
use vstd::prelude::*;

verus! {

use crate::arith::{gcd_nat, divides, lemma_gcd_divides, lemma_divisor_at_most};
use crate::primes::{primes_in, lemma_primes_in_split};
use crate::{run_spec, reps, g_of, acc_after, pm1_spec, stage_bound, Outcome};

/// The accumulator after the first `i + 1` primes is the accumulator
/// after the first prime, run over the next `i`.
proof fn lemma_acc_after_take_shift(primes: Seq<nat>, exp: nat, n: nat, base: nat, i: int)
    requires
        0 <= i < primes.len(),
    ensures
        acc_after(primes.take(i + 1), exp, n, base) == acc_after(
            primes.drop_first().take(i),
            exp,
            n,
            reps(base, primes[0], exp, n),
        ),
{
    assert(primes.take(i + 1).len() == i + 1);
    assert(primes.take(i + 1)[0] == primes[0]);
    assert(primes.take(i + 1).drop_first() =~= primes.drop_first().take(i));
}

/// A stage over two prime sequences, one after the other, is the first
/// stage followed — only if the first ran out of primes — by the second
/// on the carried accumulator.
pub proof fn lemma_run_append(s: Seq<nat>, t: Seq<nat>, exp: nat, n: nat, base: nat)
    ensures
        run_spec(s + t, exp, n, base) == match run_spec(s, exp, n, base) {
            Outcome::Incomplete(c) => run_spec(t, exp, n, c),
            o => o,
        },
    decreases s.len(),
{
    if s.len() == 0 {
        assert(s + t =~= t);
    } else {
        assert((s + t).len() > 0);
        assert((s + t)[0] == s[0]);
        let b2 = reps(base, s[0], exp, n);
        let g = g_of(b2, n);
        if g == n {
        } else if g != 1 {
        } else {
            assert((s + t).drop_first() =~= s.drop_first() + t);
            lemma_run_append(s.drop_first(), t, exp, n, b2);
        }
    }
}

/// A completed stage always hands back a nontrivial proper divisor of
/// `n`: the factor `g` satisfies `1 < g < n` and divides `n`.
pub proof fn lemma_complete_is_proper_factor(
    primes: Seq<nat>,
    exp: nat,
    n: nat,
    base: nat,
    g: nat,
)
    requires
        n >= 2,
        run_spec(primes, exp, n, base) == Outcome::Complete(g),
    ensures
        1 < g < n,
        divides(g, n),
    decreases primes.len(),
{
    assert(primes.len() > 0);
    let b2 = reps(base, primes[0], exp, n);
    let g0 = g_of(b2, n);
    if g0 == n {
        assert(false);
    } else if g0 != 1 {
        assert(g == g0);
        assert(b2 != 0);
        lemma_gcd_divides((b2 - 1) as nat, n);
        lemma_divisor_at_most(g, n);
    } else {
        lemma_complete_is_proper_factor(primes.drop_first(), exp, n, b2, g);
    }
}

/// A failed stage means the accumulator collapsed: at some prime the
/// accumulator `acc` reached a state with gcd(acc - 1, n) == n, and no
/// factor had been found before that point.
pub proof fn lemma_fail_collapse(primes: Seq<nat>, exp: nat, n: nat, base: nat)
    requires
        n >= 2,
        run_spec(primes, exp, n, base) == Outcome::Fail,
    ensures
        exists|i: int|
            {
                let acc = acc_after(#[trigger] primes.take(i + 1), exp, n, base);
                0 <= i < primes.len() && acc != 0 && gcd_nat((acc - 1) as nat, n) == n
            },
    decreases primes.len(),
{
    assert(primes.len() > 0);
    let b2 = reps(base, primes[0], exp, n);
    let g0 = g_of(b2, n);
    if g0 == n {
        assert(primes.take(1).len() == 1);
        assert(primes.take(1)[0] == primes[0]);
        assert(primes.take(1).drop_first().len() == 0);
        assert(acc_after(primes.take(1).drop_first(), exp, n, b2) == b2);
        assert(acc_after(primes.take(1), exp, n, base) == b2);
        assert(b2 != 0);
        let z: int = 0;
        assert({
            let acc = acc_after(primes.take(z + 1), exp, n, base);
            0 <= z < primes.len() && acc != 0 && gcd_nat((acc - 1) as nat, n) == n
        });
    } else {
        assert(g0 == 1);
        let tail = primes.drop_first();
        lemma_fail_collapse(tail, exp, n, b2);
        let i0 = choose|i: int|
            {
                let acc = acc_after(#[trigger] tail.take(i + 1), exp, n, b2);
                0 <= i < tail.len() && acc != 0 && gcd_nat((acc - 1) as nat, n) == n
            };
        lemma_acc_after_take_shift(primes, exp, n, base, i0 + 1);
        assert({
            let acc = acc_after(primes.take(i0 + 2), exp, n, base);
            0 <= i0 + 1 < primes.len() && acc != 0 && gcd_nat((acc - 1) as nat, n) == n
        });
    }
}

/// A stage that runs out of primes carries exactly the accumulator
/// left after processing the last prime, and no intermediate prime
/// produced a factor candidate other than 1.
pub proof fn lemma_incomplete_carry(primes: Seq<nat>, exp: nat, n: nat, base: nat, c: nat)
    requires
        n >= 2,
        run_spec(primes, exp, n, base) == Outcome::Incomplete(c),
    ensures
        c == acc_after(primes, exp, n, base),
        forall|i: int|
            0 <= i < primes.len() ==> g_of(
                acc_after(#[trigger] primes.take(i + 1), exp, n, base),
                n,
            ) == 1,
    decreases primes.len(),
{
    if primes.len() == 0 {
    } else {
        let b2 = reps(base, primes[0], exp, n);
        let g0 = g_of(b2, n);
        assert(g0 == 1);
        let tail = primes.drop_first();
        lemma_incomplete_carry(tail, exp, n, b2, c);
        assert forall|i: int| 0 <= i < primes.len() implies g_of(
            acc_after(#[trigger] primes.take(i + 1), exp, n, base),
            n,
        ) == 1 by {
            if i == 0 {
                assert(primes.take(1).len() == 1);
                assert(primes.take(1)[0] == primes[0]);
                assert(primes.take(1).drop_first().len() == 0);
                assert(acc_after(primes.take(1).drop_first(), exp, n, b2) == b2);
                assert(acc_after(primes.take(1), exp, n, base) == b2);
            } else {
                lemma_acc_after_take_shift(primes, exp, n, base, i);
                assert(g_of(acc_after(tail.take(i - 1 + 1), exp, n, b2), n) == 1);
            }
        }
    }
}

/// Re-running a stage on the same prime stream and the same initial
/// data gives the same outcome: the outcome is a pure function of its
/// inputs.
pub proof fn lemma_rerun_same(
    primes: Seq<nat>,
    exp: nat,
    n: nat,
    base: nat,
    r1: Outcome,
    r2: Outcome,
)
    requires
        r1 == run_spec(primes, exp, n, base),
        r2 == run_spec(primes, exp, n, base),
    ensures
        r1 == r2,
{
}

/// Widening stage 2 never loses an answer: if the orchestrator finds a
/// factor with stage-2 exponent `logb2a`, it finds the same factor with
/// any `logb2b >= logb2a`, because each stage stops at the first factor
/// it isolates.
pub proof fn lemma_widen_stage2(
    logb1: u64,
    exp: u64,
    logb2a: u64,
    logb2b: u64,
    n: nat,
    base: nat,
    r: nat,
)
    requires
        logb2a <= logb2b,
        logb2b < 64,
        pm1_spec(logb1, exp, logb2a, n, base) == Option::Some(r),
    ensures
        pm1_spec(logb1, exp, logb2b, n, base) == Option::Some(r),
{
    let m = stage_bound(logb1);
    let ha = stage_bound(logb2a);
    let hb = stage_bound(logb2b);
    assert((1u64 << logb2a) <= (1u64 << logb2b)) by (bit_vector)
        requires
            logb2a <= logb2b,
            logb2b < 64u64,
    ;
    match run_spec(primes_in(2, m), exp as nat, n, base) {
        Outcome::Fail => {
            assert(false);
        },
        Outcome::Complete(_) => {
        },
        Outcome::Incomplete(b) => {
            match run_spec(primes_in(m, ha), 1, n, b) {
                Outcome::Complete(g) => {
                    assert(g == r);
                    if m > ha {
                        assert(primes_in(m, ha).len() == 0);
                        assert(false);
                    }
                    lemma_primes_in_split(m, ha, hb);
                    lemma_run_append(primes_in(m, ha), primes_in(ha, hb), 1, n, b);
                },
                _ => {
                    assert(false);
                },
            }
        },
    }
}

/// A stage-2 bound at or below the stage-1 bound makes the stage-2
/// stream empty, so the orchestrator answers exactly as stage 1 alone
/// does: a factor when stage 1 completes, and nothing otherwise.
pub proof fn lemma_empty_stage2(logb1: u64, exp: u64, logb2: u64, n: nat, base: nat)
    requires
        logb2 <= logb1,
        logb1 < 64,
    ensures
        pm1_spec(logb1, exp, logb2, n, base) == match run_spec(
            primes_in(2, stage_bound(logb1)),
            exp as nat,
            n,
            base,
        ) {
            Outcome::Complete(g) => Option::Some(g),
            _ => Option::<nat>::None,
        },
{
    assert((1u64 << logb2) <= (1u64 << logb1)) by (bit_vector)
        requires
            logb2 <= logb1,
            logb1 < 64u64,
    ;
    assert(primes_in(stage_bound(logb1), stage_bound(logb2)).len() == 0);
}

/// A repeat count of zero is a defined no-op stage: the accumulator is
/// never changed, so every prime sees the same candidate gcd(base - 1,
/// n); with candidate 1 the whole stream is consumed and the original
/// accumulator is carried, and otherwise the first prime already
/// decides the outcome.
pub proof fn lemma_exp_zero(primes: Seq<nat>, n: nat, base: nat)
    requires
        n >= 2,
    ensures
        run_spec(primes, 0, n, base) == (if primes.len() == 0 || g_of(base, n) == 1 {
            Outcome::Incomplete(base)
        } else if g_of(base, n) == n {
            Outcome::Fail
        } else {
            Outcome::Complete(g_of(base, n))
        }),
    decreases primes.len(),
{
    if primes.len() == 0 {
    } else {
        assert(reps(base, primes[0], 0, n) == base);
        if g_of(base, n) == 1 {
            lemma_exp_zero(primes.drop_first(), n, base);
        }
    }
}

} // verus!
