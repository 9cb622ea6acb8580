//! The stream of primes over a half-open interval. Primality of a
//! single number is supplied by the `primal` crate through a trusted
//! wrapper; the enumeration of the interval and the stream's cursor
//! behaviour are verified here.
use vstd::prelude::*;

verus! {

/// `p` is a prime number.
pub open spec fn is_prime(p: nat) -> bool {
    p >= 2 && forall|d: nat| 2 <= d < p ==> #[trigger] (p % d) != 0
}

/// The ascending, duplicate-free sequence of all primes in `[lo, hi)`.
pub open spec fn primes_in(lo: nat, hi: nat) -> Seq<nat>
    decreases hi - lo,
{
    if lo >= hi {
        Seq::empty()
    } else if is_prime(lo) {
        seq![lo] + primes_in(lo + 1, hi)
    } else {
        primes_in(lo + 1, hi)
    }
}

/// The primes of an interval are the primes of its two halves, in order.
pub proof fn lemma_primes_in_split(lo: nat, mid: nat, hi: nat)
    requires
        lo <= mid <= hi,
    ensures
        primes_in(lo, hi) == primes_in(lo, mid) + primes_in(mid, hi),
    decreases mid - lo,
{
    if lo == mid {
        assert(primes_in(lo, mid) =~= Seq::<nat>::empty());
        assert(primes_in(lo, hi) =~= primes_in(lo, mid) + primes_in(mid, hi));
    } else {
        lemma_primes_in_split(lo + 1, mid, hi);
        if is_prime(lo) {
            assert(primes_in(lo, hi) =~= primes_in(lo, mid) + primes_in(mid, hi));
        } else {
            assert(primes_in(lo, hi) =~= primes_in(lo, mid) + primes_in(mid, hi));
        }
    }
}

/// Relies on primal::is_prime (the deterministic Miller-Rabin test of
/// primal-check, exact over the whole u64 range): returns whether `x`
/// is prime.
#[verifier::external_body]
fn check_prime(x: u64) -> (r: bool)
    ensures
        r == is_prime(x as nat),
{
    primal::is_prime(x)
}

/// An ascending stream of the primes in a half-open interval, consumed
/// from the front by `next`.
pub struct Primes {
    values: Vec<u64>,
    pos: usize,
}

impl View for Primes {
    type V = Seq<nat>;

    /// The primes the stream has not yet handed out.
    closed spec fn view(&self) -> Seq<nat> {
        self.values@.skip(self.pos as int).map_values(|p: u64| p as nat)
    }
}

impl Primes {
    /// The cursor never points past the end of the underlying list.
    pub closed spec fn wf(&self) -> bool {
        self.pos <= self.values.len()
    }

    /// The stream of all primes in `[low, high)`, in ascending order.
    pub fn new(low: u64, high: u64) -> (r: Primes)
        ensures
            r@ == primes_in(low as nat, high as nat),
            r.wf(),
    {
        let mut values: Vec<u64> = Vec::new();
        if high <= low {
            let r = Primes { values, pos: 0 };
            proof {
                assert(r@ =~= primes_in(low as nat, high as nat));
            }
            return r;
        }
        let mut q: u64 = low;
        while q < high
            invariant
                low <= q <= high,
                values@.map_values(|p: u64| p as nat) == primes_in(low as nat, q as nat),
            decreases high - q,
        {
            let ghost prev = values@;
            if check_prime(q) {
                values.push(q);
            }
            proof {
                lemma_primes_in_split(low as nat, q as nat, (q + 1) as nat);
                assert(primes_in((q + 1) as nat, (q + 1) as nat) =~= Seq::<nat>::empty());
                if is_prime(q as nat) {
                    assert(primes_in(q as nat, (q + 1) as nat) =~= seq![q as nat]);
                    assert(values@.map_values(|p: u64| p as nat) =~= prev.map_values(
                        |p: u64| p as nat,
                    ) + seq![q as nat]);
                } else {
                    assert(primes_in(q as nat, (q + 1) as nat) =~= Seq::<nat>::empty());
                    assert(primes_in(low as nat, (q + 1) as nat) =~= primes_in(
                        low as nat,
                        q as nat,
                    ));
                }
            }
            q = q + 1;
        }
        let r = Primes { values, pos: 0 };
        proof {
            assert(r@ =~= r.values@.map_values(|p: u64| p as nat));
        }
        r
    }

    /// Hands out the next prime, or nothing once the stream is spent.
    pub fn next(&mut self) -> (r: Option<u64>)
        requires
            old(self).wf(),
        ensures
            final(self).wf(),
            match r {
                Some(p) => old(self)@.len() > 0 && p as nat == old(self)@[0] && final(self)@
                    == old(self)@.drop_first(),
                None => old(self)@.len() == 0 && final(self)@ == old(self)@,
            },
    {
        if self.pos < self.values.len() {
            let ghost prev = *self;
            let p = self.values[self.pos];
            self.pos = self.pos + 1;
            proof {
                assert(self.values@.skip(self.pos as int) =~= prev.values@.skip(
                    prev.pos as int,
                ).drop_first());
                assert(self@ =~= prev@.drop_first());
                assert(prev@[0] == p as nat);
            }
            Some(p)
        } else {
            None
        }
    }

    /// How many primes are still to come.
    pub fn remaining(&self) -> (r: usize)
        requires
            self.wf(),
        ensures
            r == self@.len(),
    {
        self.values.len() - self.pos
    }
}

} // verus!
