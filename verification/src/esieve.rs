//! Sieve of Eratosthenes: find all the primes up to and including a given
//! bound, one divisor at a time. The composite table is a bit-packed
//! `fixedbitset::FixedBitSet`, kept behind a few trusted wrappers.

use vstd::prelude::*;

use fixedbitset::FixedBitSet;

verus! {

use crate::{
    is_prime,
    lemma_primes_upto_constant,
    lemma_primes_upto_step,
    lemma_smallest_prime_factor,
    primes_upto,
};
use vstd::arithmetic::div_mod::{lemma_fundamental_div_mod, lemma_mod_multiples_basic};
use vstd::arithmetic::mul::lemma_mul_inequality;

/// Construction-time failures: a zero bound, and a reserved kind for a
/// failed allocation.
#[derive(Debug, PartialEq, Eq, Structural)]
pub enum Error {
    BadBound,
    BadMemory,
}

/// The supported end conditions for `run`.
pub enum EndCondition {
    UpperBoundReached,
}

impl Default for EndCondition {
    /// Runs the sieve until the upper bound has been reached.
    fn default() -> (r: Self)
        ensures
            r == EndCondition::UpperBoundReached,
    {
        EndCondition::UpperBoundReached
    }
}

#[verifier::external_type_specification]
#[verifier::external_body]
pub struct ExFixedBitSet(FixedBitSet);

/// The bits held by a `fixedbitset::FixedBitSet`, in index order.
pub uninterp spec fn bitset_bits(s: FixedBitSet) -> Seq<bool>;

/// Relies on `fixedbitset::FixedBitSet::with_capacity`: a fixed-size
/// bit-packed set of `bits` bits, all initially false.
#[verifier::external_body]
fn bitset_with_capacity(bits: usize) -> (r: FixedBitSet)
    ensures
        bitset_bits(r).len() == bits,
        forall|i: int| 0 <= i < bits ==> !bitset_bits(r)[i],
{
    FixedBitSet::with_capacity(bits)
}

/// Relies on `fixedbitset::FixedBitSet::contains`: whether the bit at the
/// index is enabled; it never panics.
#[verifier::external_body]
fn bitset_contains(s: &FixedBitSet, bit: usize) -> (r: bool)
    requires
        bit < bitset_bits(*s).len(),
    ensures
        r == bitset_bits(*s)[bit as int],
{
    s.contains(bit)
}

/// Relies on `fixedbitset::FixedBitSet::insert`: enables the bit at the
/// index and leaves every other bit; it panics only when the index is out
/// of bounds.
#[verifier::external_body]
fn bitset_insert(s: &mut FixedBitSet, bit: usize)
    requires
        bit < bitset_bits(*old(s)).len(),
    ensures
        bitset_bits(*final(s)).len() == bitset_bits(*old(s)).len(),
        bitset_bits(*final(s))[bit as int],
        forall|i: int|
            0 <= i < bitset_bits(*old(s)).len() && i != bit ==> bitset_bits(*final(s))[i]
                == bitset_bits(*old(s))[i],
{
    s.insert(bit)
}

/// Integer `v` is a multiple of `d` by a factor of at least two.
pub open spec fn is_strict_multiple(v: int, d: int) -> bool {
    v % d == 0 && v >= 2 * d
}

/// Integer `v` is a strict multiple of some prime that is at most `ld`.
pub open spec fn struck(v: int, ld: int) -> bool {
    exists|p: int| is_prime(p) && p <= ld && #[trigger] is_strict_multiple(v, p)
}

/// All bits with index in `[lo, hi)` are set.
pub open spec fn all_set(s: Seq<bool>, lo: int, hi: int) -> bool {
    forall|i: int| lo <= i < hi ==> s[i]
}

/// A number that is a strict multiple of a prime is not itself prime.
proof fn lemma_struck_not_prime(v: int, ld: int)
    requires
        struck(v, ld),
    ensures
        !is_prime(v),
{
    let p = choose|p: int| is_prime(p) && p <= ld && #[trigger] is_strict_multiple(v, p);
    assert(2 <= p < v);
    assert(v % p == 0);
}

///
/// The state of the Eratosthenes sieve after some number of single-step
/// advances (or none).
///
#[derive(Debug)]
pub struct SieveState {
    // A map i -> bool telling whether i + 1 is known to be composite; the
    // bit for 1 is wasted, as 1 is neither prime nor composite.
    is_known_composite: FixedBitSet,
    primes: Vec<usize>,
    upper_bound: usize,
    last_divisor: usize,
}

impl SieveState {
    /// The composite table as a sequence of bits; bit `i` stands for `i + 1`.
    pub closed spec fn bits(self) -> Seq<bool> {
        bitset_bits(self.is_known_composite)
    }

    /// The inclusive ceiling of the search space.
    pub closed spec fn upper_bound_spec(self) -> int {
        self.upper_bound as int
    }

    /// The most recently confirmed sieving divisor; 1 before any step.
    pub closed spec fn last_divisor_spec(self) -> int {
        self.last_divisor as int
    }

    /// The primes discovered so far, as mathematical integers.
    pub closed spec fn primes_seq(self) -> Seq<int> {
        self.primes@.map_values(|p: usize| p as int)
    }

    /// The sieve invariant: the discovered primes are exactly the primes up
    /// to the last divisor, in ascending order, and a bit is set exactly
    /// when its number is a strict multiple of a prime at most the last
    /// divisor.
    pub closed spec fn well_formed(self) -> bool {
        &&& self.bits().len() == self.upper_bound
        &&& 1 <= self.last_divisor <= self.upper_bound
        &&& (self.last_divisor == 1 || is_prime(self.last_divisor as int))
        &&& self.primes_seq() == primes_upto(self.last_divisor as int)
        &&& forall|i: int|
            0 <= i < self.upper_bound ==> ((#[trigger] self.bits()[i]) <==> struck(
                i + 1,
                self.last_divisor as int,
            ))
    }

    /// Every number above the last divisor, up to the bound, is known
    /// composite, so no further divisor exists.
    pub closed spec fn is_complete(self) -> bool {
        all_set(self.bits(), self.last_divisor as int, self.upper_bound as int)
    }

    /// Initialize the state with upper bound `n`. Only primes up to and
    /// including this bound will be generated.
    ///
    /// Note that this might allocate a fair chunk of memory: O(n) bits.
    pub fn with_upper_bound(n: usize) -> (r: Result<SieveState, Error>)
        ensures
            match r {
                Ok(s) => n >= 1 && s.well_formed() && s.upper_bound_spec() == n
                    && s.last_divisor_spec() == 1 && s.primes_seq() == Seq::<int>::empty(),
                Err(e) => n == 0 && e == Error::BadBound,
            },
    {
        if n == 0 {
            Err(Error::BadBound)
        } else {
            let is_known_composite = bitset_with_capacity(n);
            let s = SieveState { is_known_composite, primes: Vec::new(), upper_bound: n, last_divisor: 1 };
            proof {
                assert(s.primes_seq() =~= Seq::<int>::empty());
                assert(s.primes_seq() =~= primes_upto(1));
                assert forall|i: int| 0 <= i < n implies !(#[trigger] s.bits()[i]) && !struck(
                    i + 1,
                    1,
                ) by {
                    if struck(i + 1, 1) {
                        let p = choose|p: int|
                            is_prime(p) && p <= 1 && #[trigger] is_strict_multiple(i + 1, p);
                        assert(p >= 2);
                    }
                };
            }
            Ok(s)
        }
    }

    /// The primes discovered so far, ascending.
    pub fn primes_found(&self) -> (r: &Vec<usize>)
        ensures
            r@.map_values(|p: usize| p as int) == self.primes_seq(),
    {
        &self.primes
    }
}

/// Scan for the next number above `last_divisor` whose composite bit is
/// unset, up to `upper_bound` inclusive.
fn find_next_divisor(
    last_divisor: usize,
    upper_bound: usize,
    is_known_composite: &FixedBitSet,
) -> (r: Option<usize>)
    requires
        1 <= last_divisor <= upper_bound,
        bitset_bits(*is_known_composite).len() == upper_bound,
    ensures
        match r {
            Some(d) => last_divisor < d <= upper_bound && !bitset_bits(*is_known_composite)[d - 1]
                && all_set(bitset_bits(*is_known_composite), last_divisor as int, d - 1),
            None => all_set(
                bitset_bits(*is_known_composite),
                last_divisor as int,
                upper_bound as int,
            ),
        },
{
    let mut potential_divisor: usize = last_divisor;
    while potential_divisor < upper_bound
        invariant
            last_divisor <= potential_divisor <= upper_bound,
            bitset_bits(*is_known_composite).len() == upper_bound,
            all_set(bitset_bits(*is_known_composite), last_divisor as int, potential_divisor as int),
        decreases upper_bound - potential_divisor,
    {
        // This step cannot overflow: potential_divisor < upper_bound, and
        // no value is less than itself, so the scan halts at the maximum.
        potential_divisor = potential_divisor + 1;

        if !bitset_contains(is_known_composite, potential_divisor - 1) {
            return Some(potential_divisor);
        }
    }
    None
}

/// Set the composite bit of every strict multiple of `divisor` up to
/// `upper_bound`, and of nothing else.
fn mark_multiples_as_composite(
    divisor: usize,
    upper_bound: usize,
    is_known_composite: &mut FixedBitSet,
)
    requires
        2 <= divisor <= upper_bound,
        bitset_bits(*old(is_known_composite)).len() == upper_bound,
    ensures
        bitset_bits(*final(is_known_composite)).len() == upper_bound,
        forall|i: int|
            0 <= i < upper_bound ==> ((#[trigger] bitset_bits(*final(is_known_composite))[i])
                <==> (bitset_bits(*old(is_known_composite))[i] || is_strict_multiple(
                i + 1,
                divisor as int,
            ))),
{
    let ghost d = divisor as int;
    let mut last_multiple: usize = divisor;
    let ghost mut j: int = 1;
    loop
        invariant
            2 <= divisor <= upper_bound,
            d == divisor as int,
            j >= 1,
            last_multiple == d * j,
            last_multiple <= upper_bound,
            bitset_bits(*is_known_composite).len() == upper_bound,
            forall|i: int|
                0 <= i < upper_bound ==> ((#[trigger] bitset_bits(*is_known_composite)[i]) <==> (
                bitset_bits(*old(is_known_composite))[i] || (is_strict_multiple(i + 1, d) && i + 1
                    <= last_multiple))),
        ensures
            j >= 1,
            last_multiple == d * j,
            d * (j + 1) > upper_bound,
            bitset_bits(*is_known_composite).len() == upper_bound,
            forall|i: int|
                0 <= i < upper_bound ==> ((#[trigger] bitset_bits(*is_known_composite)[i]) <==> (
                bitset_bits(*old(is_known_composite))[i] || (is_strict_multiple(i + 1, d) && i + 1
                    <= last_multiple))),
        decreases upper_bound - last_multiple,
    {
        if let Some(multiple) = last_multiple.checked_add(divisor) {
            if multiple <= upper_bound {
                proof {
                    assert(d * (j + 1) == d * j + d) by (nonlinear_arith);
                }
                bitset_insert(is_known_composite, multiple - 1);
                proof {
                    j = j + 1;
                    assert((j * d) % d == 0) by {
                        lemma_mod_multiples_basic(j, d);
                    };
                    assert(2 * d <= j * d) by {
                        lemma_mul_inequality(2, j, d);
                    };
                    assert(is_strict_multiple(multiple as int, d));
                    lemma_multiples_below(d, j, multiple as int);
                }
                last_multiple = multiple;
            } else {
                proof {
                    assert(d * (j + 1) == d * j + d) by (nonlinear_arith);
                }
                break ;
            }
        } else {
            proof {
                assert(d * (j + 1) == d * j + d) by (nonlinear_arith);
            }
            break ;
        }
    }
    proof {
        assert forall|i: int|
            0 <= i < upper_bound implies ((#[trigger] bitset_bits(*is_known_composite)[i]) <==> (
        bitset_bits(*old(is_known_composite))[i] || is_strict_multiple(i + 1, d))) by {
            if is_strict_multiple(i + 1, d) {
                lemma_multiple_le_last(d, j, i + 1, upper_bound as int);
            }
        };
    }
}

/// Any multiple of `d` that is strictly below `d * j` is at most `d * (j - 1)`.
proof fn lemma_multiples_below(d: int, j: int, m: int)
    requires
        d >= 1,
        j >= 1,
        m == d * j,
    ensures
        forall|v: int| #[trigger] (v % d) == 0 && v < m ==> v <= d * (j - 1),
{
    assert forall|v: int| #[trigger] (v % d) == 0 && v < m implies v <= d * (j - 1) by {
        lemma_fundamental_div_mod(v, d);
        let q = v / d;
        assert(v <= d * (j - 1)) by (nonlinear_arith)
            requires v == d * q, v < d * j, d >= 1,
        ;
    };
}

/// Any strict multiple of `d` up to the bound is at most `d * j`, once
/// `d * (j + 1)` exceeds the bound.
proof fn lemma_multiple_le_last(d: int, j: int, v: int, ub: int)
    requires
        d >= 1,
        j >= 1,
        d * (j + 1) > ub,
        v % d == 0,
        v <= ub,
    ensures
        v <= d * j,
{
    lemma_fundamental_div_mod(v, d);
    let q = v / d;
    assert(v <= d * j) by (nonlinear_arith)
        requires v == d * q, v <= ub, d * (j + 1) > ub, d >= 1,
    ;
}

/// A scan that stopped at an unset bit has found a prime: everything it
/// passed over was struck, so a smaller prime factor cannot exist.
proof fn lemma_found_divisor(bits: Seq<bool>, ld: int, ub: int, d: int)
    requires
        bits.len() == ub,
        1 <= ld <= ub,
        ld < d <= ub,
        forall|i: int| 0 <= i < ub ==> ((#[trigger] bits[i]) <==> struck(i + 1, ld)),
        all_set(bits, ld, d - 1),
        !bits[d - 1],
    ensures
        is_prime(d),
        forall|c: int| ld < c < d ==> !is_prime(c),
{
    assert forall|c: int| ld < c < d implies !is_prime(c) by {
        assert(bits[c - 1]);
        assert(struck(c, ld));
        lemma_struck_not_prime(c, ld);
    };
    if !is_prime(d) {
        let p = lemma_smallest_prime_factor(d);
        assert(is_strict_multiple(d, p));
        if p <= ld {
            assert(struck(d, ld));
            assert(false);
        } else {
            assert(!is_prime(p));
            assert(false);
        }
    }
}

/// Advance the sieve by one divisor: find the next prime above the last
/// divisor, record it, and strike its multiples. Returns whether a divisor
/// was found; finding none means the sieve is complete. Once complete,
/// further advances change nothing and report no progress.
pub fn sieve_once(state: &mut SieveState) -> (r: Result<bool, Error>)
    requires
        old(state).well_formed(),
    ensures
        final(state).well_formed(),
        final(state).upper_bound_spec() == old(state).upper_bound_spec(),
        match r {
            Ok(true) => old(state).last_divisor_spec() < final(state).last_divisor_spec(),
            Ok(false) => *final(state) == *old(state) && final(state).is_complete(),
            Err(_) => false,
        },
        old(state).is_complete() ==> r == Ok::<bool, Error>(false),
{
    let found = find_next_divisor(
        state.last_divisor,
        state.upper_bound,
        &state.is_known_composite,
    );
    match found {
        Some(divisor) => {
            let ghost ld = state.last_divisor as int;
            let ghost ub = state.upper_bound as int;
            let ghost d = divisor as int;
            let ghost old_bits = state.bits();
            proof {
                lemma_found_divisor(old_bits, ld, ub, d);
            }
            // Assuming the previous steps have been correct, divisor is prime.
            state.primes.push(divisor);
            proof {
                lemma_primes_upto_step(ld, d);
                assert(state.primes_seq() =~= old(state).primes_seq().push(d));
            }
            mark_multiples_as_composite(divisor, state.upper_bound, &mut state.is_known_composite);
            state.last_divisor = divisor;
            proof {
                assert forall|i: int|
                    0 <= i < ub implies ((#[trigger] state.bits()[i]) <==> struck(i + 1, d)) by {
                    if state.bits()[i] {
                        if old_bits[i] {
                            let p = choose|p: int|
                                is_prime(p) && p <= ld && #[trigger] is_strict_multiple(i + 1, p);
                            assert(is_prime(p) && p <= d && is_strict_multiple(i + 1, p));
                            assert(struck(i + 1, d));
                        } else {
                            assert(is_strict_multiple(i + 1, d));
                            assert(struck(i + 1, d));
                        }
                    }
                    if struck(i + 1, d) {
                        let p = choose|p: int|
                            is_prime(p) && p <= d && #[trigger] is_strict_multiple(i + 1, p);
                        if p <= ld {
                            assert(struck(i + 1, ld));
                        } else if p < d {
                            assert(!is_prime(p));
                            assert(false);
                        } else {
                            assert(is_strict_multiple(i + 1, d));
                        }
                    }
                };
            }
            Ok(true)
        },
        None => Ok(false),
    }
}

///
/// Sieves until some condition is met. Usually this ends when all the
/// primes up to the bound have been found: on return the discovered list
/// is exactly the primes in `[2, upper_bound]`, in ascending order.
///
pub fn run(state: &mut SieveState, stop_when: EndCondition) -> (r: Result<(), Error>)
    requires
        old(state).well_formed(),
    ensures
        final(state).well_formed(),
        final(state).upper_bound_spec() == old(state).upper_bound_spec(),
        final(state).is_complete(),
        final(state).primes_seq() == primes_upto(final(state).upper_bound_spec()),
        r == Ok::<(), Error>(()),
{
    match stop_when {
        EndCondition::UpperBoundReached => {
            loop
                invariant
                    state.well_formed(),
                    state.upper_bound_spec() == old(state).upper_bound_spec(),
                ensures
                    state.well_formed(),
                    state.upper_bound_spec() == old(state).upper_bound_spec(),
                    state.is_complete(),
                decreases state.upper_bound_spec() - state.last_divisor_spec(),
            {
                let more = match sieve_once(state) {
                    Ok(b) => b,
                    Err(e) => {
                        return Err(e);
                    },
                };
                if !more {
                    break ;
                }
            }
        },
    }
    proof {
        let ld = state.last_divisor_spec();
        let ub = state.upper_bound_spec();
        assert forall|c: int| ld < c <= ub implies !is_prime(c) by {
            assert(state.bits()[c - 1]);
            assert(struck(c, ld));
            lemma_struck_not_prime(c, ld);
        };
        lemma_primes_upto_constant(ld, ub);
    }
    Ok(())
}

} // verus!

