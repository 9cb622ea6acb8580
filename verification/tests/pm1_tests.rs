use pm1::big::Big;
use pm1::primes::Primes;
use pm1::{pm1, pm1_factorbase, pm1_factorbase_with_verbosity, pm1base, Pm1Result, Verbosity};

fn fb(primes: &[u64]) -> Vec<Big> {
    primes.iter().map(|p| Big::from_u64(*p)).collect()
}

fn assert_some_eq(r: Option<Big>, v: u64) {
    match r {
        Some(g) => assert!(g.eq_value(&Big::from_u64(v))),
        None => panic!("expected a factor"),
    }
}

#[test]
fn scenario_small_semiprime() {
    // n = 15, base = 2, exp = 1, stage-1 primes {2, 3}: p = 2 gives
    // base = 4 and gcd(3, 15) = 3, a proper factor.
    let n = Big::from_u64(15);
    let r = pm1base(2, 1, 2, &n, Big::from_u64(2), Verbosity::Silent);
    assert_some_eq(r, 3);
}

#[test]
fn scenario_small_semiprime_default_base() {
    let n = Big::from_u64(15);
    let r = pm1(2, 1, 2, &n, Verbosity::Silent);
    assert_some_eq(r, 3);
}

#[test]
fn scenario_insufficient_bound() {
    // n = 221 = 13 * 17: both stages run out of primes below 4, so no
    // factor is found even though n is composite.
    let n = Big::from_u64(221);
    let r = pm1base(2, 1, 2, &n, Big::from_u64(2), Verbosity::Silent);
    assert!(r.is_none());
}

#[test]
fn stage_runner_completes() {
    let n = Big::from_u64(15);
    let r = pm1_factorbase(&fb(&[2]), 1, &n, Big::from_u64(2));
    match r {
        Pm1Result::Complete(g) => assert!(g.eq_value(&Big::from_u64(3))),
        _ => panic!("expected Complete"),
    }
}

#[test]
fn stage_runner_carries_final_accumulator() {
    // Over {2, 3} with n = 221: 2^2 = 4, then 4^3 = 64 mod 221; both
    // gcd checks give 1, so the carried accumulator is 64.
    let n = Big::from_u64(221);
    let r = pm1_factorbase(&fb(&[2, 3]), 1, &n, Big::from_u64(2));
    match r {
        Pm1Result::Incomplete(b) => assert!(b.eq_value(&Big::from_u64(64))),
        _ => panic!("expected Incomplete"),
    }
}

#[test]
fn stage_runner_fails_on_collapse() {
    // n = 3, base = 2, p = 2: the accumulator becomes 1, the candidate
    // gcd(0, 3) = 3 equals n, and the stage fails.
    let n = Big::from_u64(3);
    let r = pm1_factorbase(&fb(&[2]), 1, &n, Big::from_u64(2));
    assert!(matches!(r, Pm1Result::Fail));
}

#[test]
fn stage_runner_exp_zero_is_noop() {
    // A repeat count of zero never changes the accumulator; with
    // gcd(base - 1, n) = 1 every prime passes and the original base is
    // carried.
    let n = Big::from_u64(15);
    let r = pm1_factorbase(&fb(&[2, 3]), 0, &n, Big::from_u64(2));
    match r {
        Pm1Result::Incomplete(b) => assert!(b.eq_value(&Big::from_u64(2))),
        _ => panic!("expected Incomplete"),
    }
}

#[test]
fn stage_runner_empty_stream() {
    let n = Big::from_u64(221);
    let r = pm1_factorbase(&fb(&[]), 5, &n, Big::from_u64(7));
    match r {
        Pm1Result::Incomplete(b) => assert!(b.eq_value(&Big::from_u64(7))),
        _ => panic!("expected Incomplete"),
    }
}

#[test]
fn stage_runner_rerun_gives_same_outcome() {
    let n = Big::from_u64(221);
    let r1 = pm1_factorbase(&fb(&[2, 3]), 2, &n, Big::from_u64(2));
    let r2 = pm1_factorbase(&fb(&[2, 3]), 2, &n, Big::from_u64(2));
    match (r1, r2) {
        (Pm1Result::Incomplete(a), Pm1Result::Incomplete(b)) => assert!(a.eq_value(&b)),
        (Pm1Result::Fail, Pm1Result::Fail) => {}
        (Pm1Result::Complete(a), Pm1Result::Complete(b)) => assert!(a.eq_value(&b)),
        _ => panic!("the two runs disagree"),
    }
}

#[test]
fn empty_stage_two_keeps_stage_one_factor() {
    // logb2 < logb1 leaves stage 2 without primes; a stage-1 factor is
    // still returned.
    let n = Big::from_u64(15);
    let r = pm1base(2, 1, 1, &n, Big::from_u64(2), Verbosity::Silent);
    assert_some_eq(r, 3);
}

#[test]
fn empty_stage_two_finds_nothing_new() {
    let n = Big::from_u64(221);
    let r = pm1base(2, 1, 1, &n, Big::from_u64(2), Verbosity::Silent);
    assert!(r.is_none());
}

#[test]
fn stage_two_isolates_factor() {
    // n = 299 = 13 * 23. Stage 1 over {2, 3} finds nothing; stage 2
    // over {5, 7, 11, 13} reaches p = 11, where 23 - 1 = 2 * 11 divides
    // the accumulated exponent, and isolates 23.
    let n = Big::from_u64(299);
    assert!(pm1base(2, 1, 2, &n, Big::from_u64(2), Verbosity::Silent).is_none());
    let r = pm1base(2, 1, 4, &n, Big::from_u64(2), Verbosity::Silent);
    assert_some_eq(r, 23);
}

#[test]
fn widening_stage_two_keeps_the_answer() {
    let n = Big::from_u64(15);
    let r1 = pm1base(2, 1, 2, &n, Big::from_u64(2), Verbosity::Silent);
    let r2 = pm1base(2, 1, 5, &n, Big::from_u64(2), Verbosity::Silent);
    assert_some_eq(r1, 3);
    assert_some_eq(r2, 3);
    let m = Big::from_u64(299);
    let r3 = pm1base(2, 1, 4, &m, Big::from_u64(2), Verbosity::Silent);
    let r4 = pm1base(2, 1, 6, &m, Big::from_u64(2), Verbosity::Silent);
    assert_some_eq(r3, 23);
    assert_some_eq(r4, 23);
}

#[test]
fn verbosity_does_not_change_the_result() {
    let n = Big::from_u64(15);
    let silent = pm1_factorbase_with_verbosity(
        &fb(&[2]),
        1,
        &n,
        Big::from_u64(2),
        Verbosity::Silent,
    );
    let loud = pm1_factorbase_with_verbosity(&fb(&[2]), 1, &n, Big::from_u64(2), Verbosity::Tqdm);
    match (silent, loud) {
        (Pm1Result::Complete(a), Pm1Result::Complete(b)) => {
            assert!(a.eq_value(&Big::from_u64(3)));
            assert!(b.eq_value(&Big::from_u64(3)));
        }
        _ => panic!("expected Complete from both"),
    }
}

#[test]
fn prime_stream_lists_primes_in_order() {
    let mut it = Primes::new(2, 20);
    assert_eq!(it.remaining(), 8);
    let mut got: Vec<u64> = Vec::new();
    while let Some(p) = it.next() {
        got.push(p);
    }
    assert_eq!(it.remaining(), 0);
    assert_eq!(got, vec![2, 3, 5, 7, 11, 13, 17, 19]);
}

#[test]
fn prime_stream_half_open_interval() {
    let mut it = Primes::new(7, 8);
    assert_eq!(it.next(), Some(7));
    assert_eq!(it.next(), None);
    let mut empty = Primes::new(10, 10);
    assert_eq!(empty.next(), None);
    let mut none_inside = Primes::new(8, 11);
    assert_eq!(none_inside.next(), None);
    let mut reversed = Primes::new(16, 2);
    assert_eq!(reversed.next(), None);
}

#[test]
fn multi_limb_modulus() {
    // n = 2^35, held in two base-2^32 limbs; base 3 squares to 9 and
    // gcd(8, 2^35) = 8 is a (composite) proper factor.
    let n = Big::from_limbs(vec![0, 8]);
    let r = pm1_factorbase(&fb(&[2]), 1, &n, Big::from_u64(3));
    match r {
        Pm1Result::Complete(g) => assert!(g.eq_value(&Big::from_u64(8))),
        _ => panic!("expected Complete"),
    }
}

#[test]
fn limbs_round_trip_and_canonical_form() {
    let a = Big::from_limbs(vec![3, 0, 0]);
    assert!(a.eq_value(&Big::from_u64(3)));
    assert_eq!(a.into_limbs(), vec![3]);
    let zero = Big::from_limbs(vec![0, 0]);
    assert!(zero.is_zero());
    assert_eq!(zero.into_limbs(), Vec::<u32>::new());
    let b = Big::from_u64(1 << 32);
    assert!(b.eq_value(&Big::from_limbs(vec![0, 1])));
    assert_eq!(b.into_limbs(), vec![0, 1]);
}

#[test]
fn value_equality_tells_values_apart() {
    assert!(!Big::from_u64(5).eq_value(&Big::from_u64(6)));
    assert!(!Big::from_u64(5).eq_value(&Big::from_limbs(vec![5, 1])));
    assert!(Big::from_u64(u64::MAX).eq_value(&Big::from_limbs(vec![u32::MAX, u32::MAX])));
}
