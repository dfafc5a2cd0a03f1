//! # Primality testing
//! Fermat's test and the Miller-Rabin test over arbitrary-precision
//! integers, and a combined probabilistic classifier.
//!
//! The tests are probabilistic: primes always pass, but some composites
//! pass too. A number that fails is guaranteed to be composite. The most
//! famous universal false positives are the Carmichael numbers, which pass
//! Fermat's test for every coprime base; the Miller-Rabin test has no such
//! family and is strictly stronger, at a higher cost.

use vstd::prelude::*;

verus! {

use crate::bignum::{big_half, big_pow_mod, big_sub_one, BigInt};
use crate::esieve::{EndCondition, SieveState};
use crate::{is_prime, lemma_primes_upto_contains, primes_upto};
use vstd::arithmetic::div_mod::{
    lemma_fundamental_div_mod,
    lemma_fundamental_div_mod_converse,
    lemma_mod_bound,
    lemma_mod_multiples_basic,
    lemma_small_mod,
};
use vstd::arithmetic::power::{lemma_pow1, lemma_pow_mod_noop, lemma_pow_multiplies, pow};
use vstd::arithmetic::power2::{
    lemma2_to64,
    lemma_pow2_adds,
    lemma_pow2_pos,
    lemma_pow2_strictly_increases,
    lemma_pow2_unfold,
    pow2,
};

/// Whether `n` passes Fermat's test to base `a`: except for the degenerate
/// candidate 1, the test accepts exactly when `a^n ≡ a (mod n)`.
pub open spec fn fermat_passes(n: int, a: int) -> bool
    recommends
        n >= 1,
{
    if n == 1 {
        false
    } else {
        pow(a, n as nat) % n == a % n
    }
}

/// The odd factor `q` of `m = 2^k q`: what remains of a positive number
/// after halving it down to an odd value (or to 1).
pub open spec fn odd_part(m: int) -> int
    decreases m,
{
    if m > 1 && m % 2 == 0 {
        odd_part(m / 2)
    } else {
        m
    }
}

/// The exponent `k` of `m = 2^k q` with `q` odd.
pub open spec fn twos_exp(m: int) -> nat
    decreases m,
{
    if m > 1 && m % 2 == 0 {
        twos_exp(m / 2) + 1
    } else {
        0
    }
}

/// Whether round `i` of the Miller-Rabin squaring chain hits `n - 1`,
/// starting from `x0 = a^q mod n`.
pub open spec fn mr_round_hits(x0: int, n: int, i: int) -> bool {
    pow(x0, pow2(i as nat)) % n == n - 1
}

/// Whether `n` is a strong probable prime to base `a`: writing
/// `n - 1 = 2^k q` with `q` odd, either `a^q ≡ 1 (mod n)` or some
/// `a^(2^i q) ≡ -1 (mod n)` with `i < k`. The candidate 2 always passes.
pub open spec fn strong_probable_prime(n: int, a: int) -> bool
    recommends
        n >= 1,
{
    if n == 2 {
        true
    } else {
        let q = odd_part(n - 1);
        let k = twos_exp(n - 1);
        let x0 = pow(a, q as nat) % n;
        x0 == 1 || exists|i: int| 0 <= i < k && #[trigger] mr_round_hits(x0, n, i)
    }
}

/// The factorization the halving loop computes is the one `odd_part` and
/// `twos_exp` name.
proof fn lemma_factor_characterization(m: int, q: int, j: nat)
    requires
        m == q * pow2(j),
        q >= 0,
        !(q > 1 && q % 2 == 0),
        q == 0 ==> j == 0,
    ensures
        odd_part(m) == q,
        twos_exp(m) == j,
    decreases j,
{
    lemma_pow2_pos(j);
    lemma2_to64();
    if j == 0 {
        assert(m == q) by (nonlinear_arith)
            requires m == q * pow2(0), pow2(0) == 1,
        ;
    } else {
        let m2 = q * pow2((j - 1) as nat);
        lemma_pow2_unfold(j);
        lemma_pow2_pos((j - 1) as nat);
        assert(m == 2 * m2) by (nonlinear_arith)
            requires m == q * pow2(j), pow2(j) == 2 * pow2((j - 1) as nat), m2 == q * pow2((j - 1) as nat),
        ;
        assert(m2 >= 1) by (nonlinear_arith)
            requires q >= 1, pow2((j - 1) as nat) >= 1, m2 == q * pow2((j - 1) as nat),
        ;
        assert(m % 2 == 0) by {
            lemma_mod_multiples_basic(m2, 2);
        };
        assert(m / 2 == m2) by {
            lemma_fundamental_div_mod_converse(m, 2, m2, 0);
        };
        lemma_factor_characterization(m2, q, (j - 1) as nat);
    }
}

/// Fermat's test for primality.
///
/// Checks whether `a^n = a mod n`; primes always pass. Carmichael numbers
/// are composite yet pass for every base coprime to them: that weakness is
/// part of the algorithm, not a defect of this implementation.
///
/// The candidate `n` must be positive and the base `a` nonzero; callers
/// validate both before the call.
pub fn fermats_test(n: &BigInt, a: BigInt) -> (r: bool)
    requires
        n.wf(),
        a.wf(),
        n@ >= 1,
        a@ != 0,
    ensures
        r == fermat_passes(n@, a@),
{
    // If n is prime, the order of (Z/nZ)* is n - 1 => a**n = a mod n.
    if n.eq_small(1) {
        return false;
    }
    let c = big_pow_mod(&a, n, n);
    let m = a.rem_euclid(n);
    c.equals(&m)
}

/// The Miller-Rabin primality test.
///
/// Factors `n - 1 = 2^k q` with `q` odd, computes `x = a^q mod n`, and
/// accepts when `x` is 1 or the squaring chain reaches `n - 1` within `k`
/// steps. Unlike Fermat's test it has no Carmichael-style universal false
/// positives; a base on which it rejects is a witness that `n` is
/// composite.
///
/// The candidate `n` must be positive and the base `a` nonzero; callers
/// validate both before the call.
pub fn miller_rabin_test(n: &BigInt, a: BigInt) -> (r: bool)
    requires
        n.wf(),
        a.wf(),
        n@ >= 1,
        a@ != 0,
    ensures
        r == strong_probable_prime(n@, a@),
{
    if n.eq_small(2) {
        return true;
    }
    let ghost n1 = n@ - 1;
    proof {
        crate::bignum::lemma_view_bound(n);
        lemma2_to64();
    }
    // Factor n - 1 == 2**k q.
    let mut q = big_sub_one(n);
    let mut k: u128 = 0;
    while q.gt_one() && q.is_even()
        invariant
            n.wf(),
            q.wf(),
            n@ >= 1,
            n1 == n@ - 1,
            n1 < pow2(32 * (usize::MAX as nat) + 32),
            q@ >= 0,
            n1 == q@ * pow2(k as nat),
            q@ == 0 ==> k == 0,
            n1 > 0 ==> q@ >= 1 && pow2(k as nat) <= n1,
        decreases q@,
    {
        proof {
            lemma_pow2_pos(k as nat);
            assert(n1 > 0) by (nonlinear_arith)
                requires n1 == q@ * pow2(k as nat), q@ >= 2, pow2(k as nat) >= 1,
            ;
            if k as nat >= 32 * (usize::MAX as nat) + 32 {
                if k as nat > 32 * (usize::MAX as nat) + 32 {
                    lemma_pow2_strictly_increases(32 * (usize::MAX as nat) + 32, k as nat);
                }
                assert(false);
            }
        }
        k = k + 1;
        let q2 = big_half(&q);
        proof {
            lemma_fundamental_div_mod(q@, 2);
            lemma_pow2_unfold(k as nat);
            lemma_pow2_pos((k - 1) as nat);
            assert(n1 == q2@ * pow2(k as nat)) by (nonlinear_arith)
                requires
                    n1 == q@ * pow2((k - 1) as nat),
                    q@ == 2 * q2@,
                    pow2(k as nat) == 2 * pow2((k - 1) as nat),
            ;
            assert(pow2(k as nat) <= n1) by (nonlinear_arith)
                requires n1 == q2@ * pow2(k as nat), q2@ >= 1, pow2(k as nat) >= 1,
            ;
        }
        q = q2;
    }
    proof {
        lemma_factor_characterization(n1, q@, k as nat);
    }
    // If n is prime, a**q is 1 or some a**(2**i q) (i < k) is -1 mod n.
    let minus_one = big_sub_one(n);
    let x = big_pow_mod(&a, &q, n);
    let ghost x0 = x@;
    proof {
        lemma_mod_bound(pow(a@, q@ as nat), n@);
        lemma_small_mod(x0 as nat, n@ as nat);
        lemma_pow1(x0);
    }
    if x.eq_small(1) {
        return true;
    }
    let two = BigInt::from_u64(2);
    let mut x_cur = x;
    let mut i: u128 = 0;
    while i < k
        invariant
            n.wf(),
            x_cur.wf(),
            minus_one.wf(),
            two.wf(),
            two@ == 2,
            n@ >= 1,
            n@ != 2,
            minus_one@ == n@ - 1,
            k as nat == twos_exp(n@ - 1),
            x0 == pow(a@, odd_part(n@ - 1) as nat) % n@,
            x0 != 1,
            0 <= i <= k,
            x_cur@ == pow(x0, pow2(i as nat)) % n@,
            forall|t: int| 0 <= t < i ==> !#[trigger] mr_round_hits(x0, n@, t),
        decreases k - i,
    {
        if x_cur.equals(&minus_one) {
            proof {
                assert(mr_round_hits(x0, n@, i as int));
            }
            return true;
        }
        let x_next = big_pow_mod(&x_cur, &two, n);
        proof {
            assert(!mr_round_hits(x0, n@, i as int));
            lemma_pow_mod_noop(pow(x0, pow2(i as nat)), 2, n@);
            lemma_pow_multiplies(x0, pow2(i as nat), 2);
            lemma_pow2_adds(i as nat, 1);
            lemma2_to64();
            assert(pow2(i as nat + 1) == pow2(i as nat) * 2);
        }
        x_cur = x_next;
        i = i + 1;
    }
    proof {
        if strong_probable_prime(n@, a@) {
            let w = choose|w: int|
                0 <= w < twos_exp(n@ - 1) && #[trigger] mr_round_hits(x0, n@, w);
            assert(!mr_round_hits(x0, n@, w));
        }
    }
    false
}

/// The primes up to 541 — the first hundred of them — computed by the
/// sieve, ascending: a ground-truth table for small candidates and a
/// source of trial bases.
pub fn first_100_primes() -> (r: Vec<u32>)
    ensures
        r@.map_values(|p: u32| p as int) == primes_upto(541),
{
    let mut state = match SieveState::with_upper_bound(541) {
        Ok(s) => s,
        Err(_) => {
            return Vec::new();
        },
    };
    match crate::esieve::run(&mut state, EndCondition::UpperBoundReached) {
        Ok(()) => {},
        Err(_) => {},
    }
    let primes = state.primes_found();
    let mut out: Vec<u32> = Vec::new();
    let mut idx: usize = 0;
    while idx < primes.len()
        invariant
            primes@.map_values(|p: usize| p as int) == primes_upto(541),
            idx <= primes@.len(),
            out@.len() == idx,
            forall|t: int| 0 <= t < idx ==> #[trigger] (out@[t] as int) == primes@[t] as int,
        decreases primes@.len() - idx,
    {
        let p = primes[idx];
        proof {
            assert(primes_upto(541)[idx as int] == p as int);
            assert(primes_upto(541).contains(p as int));
            lemma_primes_upto_contains(541, p as int);
        }
        out.push(p as u32);
        idx = idx + 1;
    }
    proof {
        assert(out@.map_values(|p: u32| p as int) =~= primes@.map_values(|p: usize| p as int));
    }
    out
}

/// The degenerate candidate 1 never passes Fermat's test, whatever the base.
pub proof fn lemma_fermat_rejects_one(a: int)
    ensures
        !fermat_passes(1, a),
{
}

/// The candidate 2 always passes the Miller-Rabin test, whatever the base.
pub proof fn lemma_miller_rabin_accepts_two(a: int)
    ensures
        strong_probable_prime(2, a),
{
}

/// The three verdicts of the probabilistic classifier.
#[derive(Debug, PartialEq, Eq, Structural)]
pub enum Primality {
    Composite,
    ProbablyPrime,
    Prime,
}

/// Whether `n` passes both tests to base `a`.
pub open spec fn passes_both(n: int, a: int) -> bool {
    fermat_passes(n, a) && strong_probable_prime(n, a)
}

/// The verdict on `n` given the trial bases: small candidates — up to 541,
/// the reach of the known-primes table — are decided exactly; larger ones
/// are probably prime exactly when every base passes both tests.
pub open spec fn classify_spec(n: int, bases: Seq<int>) -> Primality {
    if n <= 541 {
        if is_prime(n) {
            Primality::Prime
        } else {
            Primality::Composite
        }
    } else {
        if forall|i: int| 0 <= i < bases.len() ==> #[trigger] passes_both(n, bases[i]) {
            Primality::ProbablyPrime
        } else {
            Primality::Composite
        }
    }
}

/// Options for the probabilistic classifier: how many rounds — trial
/// bases — to use.
pub struct PrimalityTestOptions {
    pub rounds: u32,
}

impl PrimalityTestOptions {
    /// A suggested round count. With independently chosen bases a
    /// composite survives one Miller-Rabin round with probability at most
    /// 1/4, so `rounds` rounds leave at most `4^-rounds`: the default of
    /// 16 pushes the false-positive probability below `2^-32`, whatever
    /// the candidate's size.
    pub fn suggested(a: &BigInt) -> (r: Self)
        requires
            a.wf(),
        ensures
            r.rounds == 16,
    {
        PrimalityTestOptions { rounds: 16 }
    }
}

/// Uses the sieve-backed table for small candidates and a combination of
/// Fermat's and the Miller-Rabin test over the given bases for larger
/// ones. `Composite` is definite; `ProbablyPrime` holds with high
/// likelihood for honestly chosen bases; `Prime` is reserved for small
/// candidates checked exactly.
pub fn probabilistic_primality_test(n: &BigInt, bases: &Vec<BigInt>) -> (r: Primality)
    requires
        n.wf(),
        n@ >= 1,
        forall|i: int| 0 <= i < bases@.len() ==> (#[trigger] bases@[i]).wf() && bases@[i]@ != 0,
    ensures
        r == classify_spec(n@, bases@.map_values(|b: BigInt| b@)),
{
    if n.le_small(541) {
        let primes = first_100_primes();
        let mut found = false;
        let mut i: usize = 0;
        while i < primes.len() && !found
            invariant
                n.wf(),
                primes@.map_values(|p: u32| p as int) == primes_upto(541),
                i <= primes@.len(),
                found ==> i < primes@.len() && primes@[i as int] as int == n@,
                !found ==> forall|t: int| 0 <= t < i ==> #[trigger] (primes@[t] as int) != n@,
            decreases primes@.len() - i + (if found { 0int } else { 1int }),
        {
            if n.eq_small(primes[i]) {
                found = true;
            } else {
                i = i + 1;
            }
        }
        proof {
            lemma_primes_upto_contains(541, n@);
            if found {
                assert(primes_upto(541)[i as int] == n@);
                assert(primes_upto(541).contains(n@));
            } else if is_prime(n@) {
                let t = choose|t: int|
                    0 <= t < primes_upto(541).len() && primes_upto(541)[t] == n@;
                assert(primes@[t] as int == n@);
                assert(false);
            }
        }
        if found {
            Primality::Prime
        } else {
            Primality::Composite
        }
    } else {
        let ghost base_values = bases@.map_values(|b: BigInt| b@);
        let mut i: usize = 0;
        while i < bases.len()
            invariant
                n.wf(),
                n@ > 541,
                base_values == bases@.map_values(|b: BigInt| b@),
                forall|t: int| 0 <= t < bases@.len() ==> (#[trigger] bases@[t]).wf() && bases@[t]@
                    != 0,
                i <= bases@.len(),
                forall|t: int| 0 <= t < i ==> #[trigger] passes_both(n@, base_values[t]),
            decreases bases@.len() - i,
        {
            let a1 = bases[i].clone();
            if !fermats_test(n, a1) {
                proof {
                    assert(base_values[i as int] == bases@[i as int]@);
                    assert(!passes_both(n@, base_values[i as int]));
                }
                return Primality::Composite;
            }
            let a2 = bases[i].clone();
            if !miller_rabin_test(n, a2) {
                proof {
                    assert(base_values[i as int] == bases@[i as int]@);
                    assert(!passes_both(n@, base_values[i as int]));
                }
                return Primality::Composite;
            }
            i = i + 1;
        }
        Primality::ProbablyPrime
    }
}

} // verus!
