//! A small prime-number toolkit: an incremental Sieve of Eratosthenes that
//! enumerates the primes up to a bound, and Fermat / Miller-Rabin primality
//! tests over arbitrary-precision integers.

use vstd::prelude::*;

pub mod bignum;
pub mod esieve;
pub mod primality;

verus! {

/// An integer is prime when it is at least 2 and no integer strictly
/// between 1 and itself divides it.
pub open spec fn is_prime(n: int) -> bool {
    n >= 2 && forall|d: int| 2 <= d < n ==> #[trigger] (n % d) != 0
}

/// The primes up to and including `n`, in ascending order.
pub open spec fn primes_upto(n: int) -> Seq<int>
    decreases n,
{
    if n < 2 {
        Seq::empty()
    } else if is_prime(n) {
        primes_upto(n - 1).push(n)
    } else {
        primes_upto(n - 1)
    }
}

/// A range free of primes contributes nothing to `primes_upto`.
pub proof fn lemma_primes_upto_constant(lo: int, hi: int)
    requires
        1 <= lo <= hi,
        forall|c: int| lo < c <= hi ==> !is_prime(c),
    ensures
        primes_upto(hi) == primes_upto(lo),
    decreases hi - lo,
{
    if lo < hi {
        lemma_primes_upto_constant(lo, hi - 1);
    }
}

/// Appending the next prime after a prime-free gap extends `primes_upto`.
pub proof fn lemma_primes_upto_step(lo: int, d: int)
    requires
        1 <= lo < d,
        is_prime(d),
        forall|c: int| lo < c < d ==> !is_prime(c),
    ensures
        primes_upto(d) == primes_upto(lo).push(d),
{
    lemma_primes_upto_constant(lo, d - 1);
}

/// `primes_upto(b)` holds exactly the primes between 2 and `b`.
pub proof fn lemma_primes_upto_contains(b: int, v: int)
    ensures
        primes_upto(b).contains(v) <==> (is_prime(v) && 2 <= v <= b),
    decreases b,
{
    if b < 2 {
    } else {
        lemma_primes_upto_contains(b - 1, v);
        let prev = primes_upto(b - 1);
        if is_prime(b) {
            assert(primes_upto(b) == prev.push(b));
            if is_prime(v) && 2 <= v <= b {
                if v == b {
                    assert(prev.push(b)[prev.len() as int] == v);
                } else {
                    let i = choose|i: int| 0 <= i < prev.len() && prev[i] == v;
                    assert(prev.push(b)[i] == v);
                }
                assert(primes_upto(b).contains(v));
            }
            if primes_upto(b).contains(v) {
                let i = choose|i: int| 0 <= i < prev.push(b).len() && prev.push(b)[i] == v;
                if i < prev.len() {
                    assert(prev[i] == v);
                    assert(prev.contains(v));
                }
            }
        }
    }
}

/// Every integer at least 2 has a prime divisor; a composite has one that
/// is a proper divisor, at most half the number.
pub proof fn lemma_smallest_prime_factor(n: int) -> (p: int)
    requires
        n >= 2,
    ensures
        is_prime(p),
        2 <= p <= n,
        n % p == 0,
        !is_prime(n) ==> p < n && n >= 2 * p,
    decreases n,
{
    if is_prime(n) {
        vstd::arithmetic::div_mod::lemma_mod_self_0(n);
        n
    } else {
        let d = choose|d: int| 2 <= d < n && #[trigger] (n % d) == 0;
        let p = lemma_smallest_prime_factor(d);
        vstd::arithmetic::div_mod::lemma_fundamental_div_mod(n, d);
        vstd::arithmetic::div_mod::lemma_fundamental_div_mod(d, p);
        let qd = n / d;
        let qp = d / p;
        assert(n == (p * qp) * qd);
        assert((p * qp) * qd == p * (qp * qd)) by (nonlinear_arith);
        let k = qp * qd;
        assert((k * p) % p == 0) by {
            vstd::arithmetic::div_mod::lemma_mod_multiples_basic(k, p);
        };
        assert(n == k * p) by (nonlinear_arith)
            requires n == p * k,
        ;
        assert(k >= 2 && n >= 2 * p) by (nonlinear_arith)
            requires n == p * k, p >= 2, n > p,
        ;
        p
    }
}

} // verus!
