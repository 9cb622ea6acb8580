//! Pollard's p-1 integer factorization in its classic two-stage form.
//!
//! The stage runner raises an accumulator to successive prime powers
//! modulo the target `n` and classifies what happened after each prime;
//! the orchestrator chains a stage over the small primes with a wider
//! single-pass stage and reduces the pair to one optional factor. The
//! whole computation is pinned down by the spec functions `run_spec`
//! and `pm1_spec`.
use vstd::prelude::*;

pub mod arith;
pub mod big;
pub mod laws;
pub mod primes;

verus! {

use crate::arith::{pow_nat, gcd_nat};
use crate::big::{Big, big_pow_mod, big_gcd, big_sub_one};
use crate::primes::{Primes, primes_in};

/// What a stage concluded: `Fail` when the accumulator collapsed and
/// nothing more can be learned, `Incomplete` when the prime stream ran
/// out (carrying the accumulator for a possible next stage), and
/// `Complete` when a nontrivial factor was isolated.
pub enum Pm1Result {
    Fail,
    Incomplete(Big),
    Complete(Big),
}

/// The mathematical counterpart of `Pm1Result`.
pub enum Outcome {
    Fail,
    Incomplete(nat),
    Complete(nat),
}

impl View for Pm1Result {
    type V = Outcome;

    open spec fn view(&self) -> Outcome {
        match self {
            Pm1Result::Fail => Outcome::Fail,
            Pm1Result::Incomplete(b) => Outcome::Incomplete(b@),
            Pm1Result::Complete(g) => Outcome::Complete(g@),
        }
    }
}

impl Pm1Result {
    /// The carried or returned number, if any, is canonical.
    pub open spec fn wf(&self) -> bool {
        match self {
            Pm1Result::Fail => true,
            Pm1Result::Incomplete(b) => b.wf(),
            Pm1Result::Complete(g) => g.wf(),
        }
    }
}

/// Whether the optional progress display is wanted. The display is
/// purely observational and never changes a result.
#[derive(Clone, Copy)]
pub enum Verbosity {
    Silent,
    Tqdm,
}

/// The accumulator after being raised to the power `p` modulo `n`,
/// `e` times over.
pub open spec fn reps(base: nat, p: nat, e: nat, n: nat) -> nat
    decreases e,
{
    if e == 0 {
        base
    } else {
        pow_nat(reps(base, p, (e - 1) as nat, n), p) % n
    }
}

/// The factor candidate drawn from an accumulator: gcd(base - 1, n),
/// where an accumulator of zero gives gcd(-1, n) == 1.
pub open spec fn g_of(base: nat, n: nat) -> nat {
    if base == 0 {
        1
    } else {
        gcd_nat((base - 1) as nat, n)
    }
}

/// One whole stage: the primes are taken in order; after each, the
/// accumulator is raised `exp` times and the candidate gcd decides
/// whether the stage fails, completes with a factor, or goes on.
pub open spec fn run_spec(primes: Seq<nat>, exp: nat, n: nat, base: nat) -> Outcome
    decreases primes.len(),
{
    if primes.len() == 0 {
        Outcome::Incomplete(base)
    } else {
        let b2 = reps(base, primes[0], exp, n);
        let g = g_of(b2, n);
        if g == n {
            Outcome::Fail
        } else if g != 1 {
            Outcome::Complete(g)
        } else {
            run_spec(primes.drop_first(), exp, n, b2)
        }
    }
}

/// The accumulator left after processing every prime of the sequence,
/// regardless of any factor found along the way.
pub open spec fn acc_after(primes: Seq<nat>, exp: nat, n: nat, base: nat) -> nat
    decreases primes.len(),
{
    if primes.len() == 0 {
        base
    } else {
        acc_after(primes.drop_first(), exp, n, reps(base, primes[0], exp, n))
    }
}

/// The bound `2^logb` of a stage, as a natural number.
pub open spec fn stage_bound(logb: u64) -> nat {
    (1u64 << logb) as nat
}

/// What the two-stage orchestrator returns: stage 1 runs over the
/// primes in `[2, 2^logb1)` with the caller's repeat count; a carried
/// accumulator is handed to stage 2 over `[2^logb1, 2^logb2)` with a
/// single pass per prime; both `Fail` and a second `Incomplete` reduce
/// to no answer.
pub open spec fn pm1_spec(logb1: u64, exp: u64, logb2: u64, n: nat, base: nat) -> Option<nat> {
    match run_spec(primes_in(2, stage_bound(logb1)), exp as nat, n, base) {
        Outcome::Fail => None,
        Outcome::Complete(g) => Some(g),
        Outcome::Incomplete(b) => match run_spec(
            primes_in(stage_bound(logb1), stage_bound(logb2)),
            1,
            n,
            b,
        ) {
            Outcome::Complete(g) => Some(g),
            _ => None,
        },
    }
}

/// The value of an optional factor.
pub open spec fn opt_view(r: Option<Big>) -> Option<nat> {
    match r {
        Option::None => Option::None,
        Option::Some(b) => Option::Some(b@),
    }
}

/// Runs one stage over an arbitrary factor base: for each entry in
/// order, raises the accumulator to that power `exp` times modulo `n`
/// and classifies the candidate gcd(accumulator - 1, n). Stops at the
/// first prime whose candidate is `n` (Fail) or a nontrivial factor
/// (Complete); carries the final accumulator otherwise (Incomplete).
pub fn pm1_factorbase(factorbase: &Vec<Big>, exp: u64, n: &Big, base: Big) -> (r: Pm1Result)
    requires
        n.wf(),
        base.wf(),
        n@ >= 2,
    ensures
        r@ == run_spec(factorbase@.map_values(|b: Big| b@), exp as nat, n@, base@),
        r.wf(),
{
    let ghost fb = factorbase@.map_values(|b: Big| b@);
    let one = Big::from_u64(1);
    let mut acc = base;
    let mut i: usize = 0;
    proof {
        assert(fb.skip(0) =~= fb);
    }
    while i < factorbase.len()
        invariant
            i <= factorbase.len(),
            n.wf(),
            acc.wf(),
            one.wf(),
            n@ >= 2,
            one@ == 1,
            fb == factorbase@.map_values(|b: Big| b@),
            run_spec(fb, exp as nat, n@, base@) == run_spec(
                fb.skip(i as int),
                exp as nat,
                n@,
                acc@,
            ),
        decreases factorbase.len() - i,
    {
        let p = &factorbase[i];
        let ghost acc_in = acc@;
        let mut j: u64 = 0;
        while j < exp
            invariant
                j <= exp,
                n.wf(),
                acc.wf(),
                n@ >= 2,
                acc@ == reps(acc_in, p@, j as nat, n@),
            decreases exp - j,
        {
            acc = big_pow_mod(&acc, p, n);
            j = j + 1;
        }
        let g = if acc.is_zero() {
            Big::from_u64(1)
        } else {
            big_gcd(&big_sub_one(&acc), n)
        };
        proof {
            assert(acc@ == reps(acc_in, fb.skip(i as int)[0], exp as nat, n@));
            assert(g@ == g_of(acc@, n@));
            assert(fb.skip(i as int).drop_first() =~= fb.skip(i as int + 1));
        }
        if g.eq_value(n) {
            return Pm1Result::Fail;
        }
        if !g.eq_value(&one) {
            return Pm1Result::Complete(g);
        }
        i = i + 1;
    }
    proof {
        assert(fb.skip(i as int).len() == 0);
    }
    Pm1Result::Incomplete(acc)
}

/// The stage runner, with an optional progress display chosen by
/// `verbosity`. The display is observational only, so both choices
/// return exactly what `pm1_factorbase` returns.
pub fn pm1_factorbase_with_verbosity(
    factorbase: &Vec<Big>,
    exp: u64,
    n: &Big,
    base: Big,
    verbosity: Verbosity,
) -> (r: Pm1Result)
    requires
        n.wf(),
        base.wf(),
        n@ >= 2,
    ensures
        r@ == run_spec(factorbase@.map_values(|b: Big| b@), exp as nat, n@, base@),
        r.wf(),
{
    match verbosity {
        Verbosity::Silent => pm1_factorbase(factorbase, exp, n, base),
        Verbosity::Tqdm => pm1_factorbase(factorbase, exp, n, base),
    }
}

/// The primes in `[low, high)`, each as a number ready for the stage
/// runner.
fn stage_factorbase(low: u64, high: u64) -> (r: Vec<Big>)
    ensures
        r@.map_values(|b: Big| b@) == primes_in(low as nat, high as nat),
{
    let mut it = Primes::new(low, high);
    let mut out: Vec<Big> = Vec::new();
    while it.remaining() > 0
        invariant
            it.wf(),
            out@.map_values(|b: Big| b@) + it@ == primes_in(low as nat, high as nat),
        decreases it@.len(),
    {
        let ghost prev_out = out@;
        let ghost prev_it = it@;
        match it.next() {
            Option::Some(p) => {
                out.push(Big::from_u64(p));
                proof {
                    assert(out@.map_values(|b: Big| b@) =~= prev_out.map_values(|b: Big| b@)
                        + seq![p as nat]);
                    assert(prev_out.map_values(|b: Big| b@) + seq![p as nat] + it@ =~= prev_out.map_values(
                        |b: Big| b@,
                    ) + prev_it);
                }
            },
            Option::None => {
                proof {
                    assert(false);
                }
            },
        }
    }
    proof {
        assert(out@.map_values(|b: Big| b@) =~= out@.map_values(|b: Big| b@) + it@);
    }
    out
}

/// The two-stage orchestration: stage 1 over `[2, 2^logb1)` with the
/// caller's repeat count, then, if stage 1 ran out of primes, stage 2
/// over `[2^logb1, 2^logb2)` with one pass per prime and the carried
/// accumulator. Returns a nontrivial factor of `n` when one of the two
/// stages isolates one, and nothing otherwise.
pub fn pm1base(
    logb1: u64,
    exp: u64,
    logb2: u64,
    n: &Big,
    base: Big,
    verbosity: Verbosity,
) -> (r: Option<Big>)
    requires
        logb1 < 64,
        logb2 < 64,
        n.wf(),
        base.wf(),
        n@ >= 2,
    ensures
        opt_view(r) == pm1_spec(logb1, exp, logb2, n@, base@),
        match r {
            Option::Some(g) => g.wf(),
            Option::None => true,
        },
{
    let b1: u64 = 1u64 << logb1;
    let b2: u64 = 1u64 << logb2;
    let fb1 = stage_factorbase(2, b1);
    let carried = match pm1_factorbase_with_verbosity(&fb1, exp, n, base, verbosity) {
        Pm1Result::Fail => {
            return Option::None;
        },
        Pm1Result::Complete(g) => {
            return Option::Some(g);
        },
        Pm1Result::Incomplete(b) => b,
    };
    let fb2 = stage_factorbase(b1, b2);
    match pm1_factorbase_with_verbosity(&fb2, 1, n, carried, verbosity) {
        Pm1Result::Fail => Option::None,
        Pm1Result::Incomplete(_) => Option::None,
        Pm1Result::Complete(g) => Option::Some(g),
    }
}

/// The orchestrator with the conventional starting accumulator of 2.
pub fn pm1(logb1: u64, exp: u64, logb2: u64, n: &Big, verbosity: Verbosity) -> (r: Option<Big>)
    requires
        logb1 < 64,
        logb2 < 64,
        n.wf(),
        n@ >= 2,
    ensures
        opt_view(r) == pm1_spec(logb1, exp, logb2, n@, 2),
        match r {
            Option::Some(g) => g.wf(),
            Option::None => true,
        },
{
    pm1base(logb1, exp, logb2, n, Big::from_u64(2), verbosity)
}

} // verus!
