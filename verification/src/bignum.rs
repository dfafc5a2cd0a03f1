//! An arbitrary-precision signed integer, held as plain values the proofs
//! can read: a sign and a little-endian sequence of base-2^32 digits.
//! The heavy arithmetic (modular exponentiation, division) is delegated to
//! `num_bigint` through a few trusted wrappers; everything that reads or
//! compares values is verified here.

use vstd::prelude::*;

verus! {

use vstd::arithmetic::div_mod::{
    lemma_fundamental_div_mod,
    lemma_fundamental_div_mod_converse,
    lemma_mod_bound,
    lemma_mod_multiples_vanish,
};
use vstd::arithmetic::power::pow;
use vstd::arithmetic::power2::pow2;

/// The numeric value of a little-endian sequence of base-2^32 digits.
pub open spec fn limbs_value(s: Seq<u32>) -> nat
    decreases s.len(),
{
    if s.len() == 0 {
        0
    } else {
        (s[0] + 0x1_0000_0000 * limbs_value(s.skip(1))) as nat
    }
}

/// A digit sequence is canonical when it has no trailing zero digit, so
/// every magnitude has exactly one canonical representation.
pub open spec fn canonical(s: Seq<u32>) -> bool {
    s.len() == 0 || s[s.len() - 1] != 0
}

/// An arbitrary-precision signed integer: a magnitude in base-2^32 digits,
/// least significant first, and a sign.
pub struct BigInt {
    limbs: Vec<u32>,
    negative: bool,
}

impl View for BigInt {
    type V = int;

    closed spec fn view(&self) -> int {
        if self.negative {
            -(limbs_value(self.limbs@) as int)
        } else {
            limbs_value(self.limbs@) as int
        }
    }
}

impl BigInt {
    /// The magnitude is canonical and zero is never marked negative, so
    /// equal values have equal representations.
    pub closed spec fn wf(self) -> bool {
        canonical(self.limbs@) && (self.negative ==> self.limbs@.len() > 0)
    }
}

/// One unfolding of `limbs_value` on a non-empty sequence.
proof fn lemma_limbs_value_unfold(s: Seq<u32>)
    requires
        s.len() > 0,
    ensures
        limbs_value(s) == s[0] + 0x1_0000_0000 * limbs_value(s.skip(1)),
{
    assert(limbs_value(s) == (s[0] + 0x1_0000_0000 * limbs_value(s.skip(1))) as nat);
}

/// A single digit is its own value.
proof fn lemma_limbs_value_single(s: Seq<u32>)
    requires
        s.len() == 1,
    ensures
        limbs_value(s) == s[0],
{
    lemma_limbs_value_unfold(s);
    assert(s.skip(1).len() == 0);
    assert(limbs_value(s.skip(1)) == 0);
}

/// A canonical non-empty digit sequence has a positive value.
proof fn lemma_limbs_value_pos(s: Seq<u32>)
    requires
        canonical(s),
        s.len() > 0,
    ensures
        limbs_value(s) > 0,
    decreases s.len(),
{
    if s.len() == 1 {
        assert(s.skip(1).len() == 0);
    } else {
        let t = s.skip(1);
        assert(t[t.len() - 1] == s[s.len() - 1]);
        lemma_limbs_value_pos(t);
    }
}

/// The first digit and the rest are the remainder and quotient by the base.
proof fn lemma_limbs_value_split(s: Seq<u32>)
    requires
        s.len() > 0,
    ensures
        limbs_value(s) % 0x1_0000_0000 == s[0],
        limbs_value(s) / 0x1_0000_0000 == limbs_value(s.skip(1)),
{
    let r = limbs_value(s.skip(1)) as int;
    lemma_fundamental_div_mod_converse(
        limbs_value(s) as int,
        0x1_0000_0000,
        r,
        s[0] as int,
    );
}

/// A canonical sequence of two or more digits holds a value of at least the base.
proof fn lemma_limbs_value_ge_base(s: Seq<u32>)
    requires
        canonical(s),
        s.len() >= 2,
    ensures
        limbs_value(s) >= 0x1_0000_0000,
{
    let t = s.skip(1);
    assert(t[t.len() - 1] == s[s.len() - 1]);
    lemma_limbs_value_pos(t);
}

/// Canonical representations are unique: equal values mean equal digits.
proof fn lemma_limbs_value_unique(s1: Seq<u32>, s2: Seq<u32>)
    requires
        canonical(s1),
        canonical(s2),
        limbs_value(s1) == limbs_value(s2),
    ensures
        s1 == s2,
    decreases s1.len(),
{
    if s1.len() == 0 && s2.len() == 0 {
        assert(s1 =~= s2);
    } else if s1.len() == 0 {
        lemma_limbs_value_pos(s2);
    } else if s2.len() == 0 {
        lemma_limbs_value_pos(s1);
    } else {
        lemma_limbs_value_split(s1);
        lemma_limbs_value_split(s2);
        let t1 = s1.skip(1);
        let t2 = s2.skip(1);
        if s1.len() >= 2 {
            assert(t1[t1.len() - 1] == s1[s1.len() - 1]);
        }
        if s2.len() >= 2 {
            assert(t2[t2.len() - 1] == s2[s2.len() - 1]);
        }
        lemma_limbs_value_unique(t1, t2);
        assert forall|i: int| 0 <= i < s1.len() implies s1[i] == s2[i] by {
            if i >= 1 {
                assert(s1[i] == t1[i - 1]);
                assert(s2[i] == t2[i - 1]);
            }
        };
        assert(s1 =~= s2);
    }
}

/// The value of a digit sequence has the parity of its first digit.
proof fn lemma_limbs_value_parity(s: Seq<u32>)
    requires
        s.len() > 0,
    ensures
        limbs_value(s) % 2 == s[0] % 2,
{
    let r = limbs_value(s.skip(1)) as int;
    assert(limbs_value(s) == 2 * (0x8000_0000 * r) + s[0]);
    lemma_mod_multiples_vanish(0x8000_0000 * r, s[0] as int, 2);
}

/// How the remainder of a negated non-negative value relates to the
/// remainder of the value itself, for a positive modulus.
proof fn lemma_mod_neg(v: int, m: int)
    requires
        v >= 0,
        m >= 1,
    ensures
        (-v) % m == if v % m == 0 { 0int } else { m - (v % m) },
{
    lemma_fundamental_div_mod(v, m);
    lemma_mod_bound(v, m);
    let q = v / m;
    let r = v % m;
    if r == 0 {
        assert(-v == (-q) * m + 0) by (nonlinear_arith)
            requires v == m * q,
        ;
        lemma_fundamental_div_mod_converse(-v, m, -q, 0);
    } else {
        assert(-v == (-q - 1) * m + (m - r)) by (nonlinear_arith)
            requires v == m * q + r,
        ;
        lemma_fundamental_div_mod_converse(-v, m, -q - 1, m - r);
    }
}

/// Relies on `num_bigint::BigInt::modpow`: it returns
/// `(base ^ exponent) mod modulus`, rounded like `mod_floor`, so the result
/// lies in `[0, modulus)` for a positive modulus, also for a negative base.
/// It panics only for a negative exponent or a zero modulus.
#[verifier::external_body]
pub(crate) fn big_pow_mod(base: &BigInt, exponent: &BigInt, modulus: &BigInt) -> (r: BigInt)
    requires
        base.wf(),
        exponent.wf(),
        modulus.wf(),
        exponent@ >= 0,
        modulus@ >= 1,
    ensures
        r.wf(),
        r@ == pow(base@, exponent@ as nat) % modulus@,
{
    let bsign = if base.negative { num_bigint::Sign::Minus } else { num_bigint::Sign::Plus };
    let b = num_bigint::BigInt::from_slice(bsign, &base.limbs);
    let e = num_bigint::BigInt::from_slice(num_bigint::Sign::Plus, &exponent.limbs);
    let m = num_bigint::BigInt::from_slice(num_bigint::Sign::Plus, &modulus.limbs);
    let (sign, limbs) = b.modpow(&e, &m).to_u32_digits();
    BigInt { limbs, negative: sign == num_bigint::Sign::Minus }
}

/// Relies on `num_bigint`'s subtraction (`impl Sub<u32> for BigInt`):
/// exact integer subtraction.
#[verifier::external_body]
pub(crate) fn big_sub_one(a: &BigInt) -> (r: BigInt)
    requires
        a.wf(),
        a@ >= 1,
    ensures
        r.wf(),
        r@ == a@ - 1,
{
    let v = num_bigint::BigInt::from_slice(num_bigint::Sign::Plus, &a.limbs);
    let (sign, limbs) = (v - 1u32).to_u32_digits();
    BigInt { limbs, negative: sign == num_bigint::Sign::Minus }
}

/// Relies on `num_bigint`'s right shift (`impl Shr<u32> for BigInt`): on a
/// non-negative value a shift by one is division by two, rounding down.
#[verifier::external_body]
pub(crate) fn big_half(a: &BigInt) -> (r: BigInt)
    requires
        a.wf(),
        a@ >= 0,
    ensures
        r.wf(),
        r@ == a@ / 2,
{
    let v = num_bigint::BigInt::from_slice(num_bigint::Sign::Plus, &a.limbs);
    let (sign, limbs) = (v >> 1u32).to_u32_digits();
    BigInt { limbs, negative: sign == num_bigint::Sign::Minus }
}

/// Relies on `num_bigint`'s remainder (`impl Rem for BigInt`): a truncating
/// remainder, `|a| mod |m|` carrying the sign of `a`.
#[verifier::external_body]
pub(crate) fn big_rem_trunc(a: &BigInt, m: &BigInt) -> (r: BigInt)
    requires
        a.wf(),
        m.wf(),
        m@ >= 1,
    ensures
        r.wf(),
        a@ >= 0 ==> r@ == a@ % m@,
        a@ < 0 ==> r@ == -((-a@) % m@),
{
    let asign = if a.negative { num_bigint::Sign::Minus } else { num_bigint::Sign::Plus };
    let va = num_bigint::BigInt::from_slice(asign, &a.limbs);
    let vm = num_bigint::BigInt::from_slice(num_bigint::Sign::Plus, &m.limbs);
    let (sign, limbs) = (&va % &vm).to_u32_digits();
    BigInt { limbs, negative: sign == num_bigint::Sign::Minus }
}

/// Relies on `num_bigint`'s addition (`impl Add for BigInt`): exact integer
/// addition.
#[verifier::external_body]
pub(crate) fn big_add(a: &BigInt, b: &BigInt) -> (r: BigInt)
    requires
        a.wf(),
        b.wf(),
    ensures
        r.wf(),
        r@ == a@ + b@,
{
    let asign = if a.negative { num_bigint::Sign::Minus } else { num_bigint::Sign::Plus };
    let bsign = if b.negative { num_bigint::Sign::Minus } else { num_bigint::Sign::Plus };
    let va = num_bigint::BigInt::from_slice(asign, &a.limbs);
    let vb = num_bigint::BigInt::from_slice(bsign, &b.limbs);
    let (sign, limbs) = (&va + &vb).to_u32_digits();
    BigInt { limbs, negative: sign == num_bigint::Sign::Minus }
}

impl Clone for BigInt {
    fn clone(&self) -> (r: Self)
        ensures
            r@ == self@,
            r.wf() == self.wf(),
    {
        let mut limbs: Vec<u32> = Vec::new();
        let mut i: usize = 0;
        while i < self.limbs.len()
            invariant
                i <= self.limbs.len(),
                limbs@ =~= self.limbs@.take(i as int),
            decreases self.limbs.len() - i,
        {
            limbs.push(self.limbs[i]);
            i += 1;
        }
        proof {
            assert(limbs@ =~= self.limbs@);
        }
        BigInt { limbs, negative: self.negative }
    }
}

impl BigInt {
    /// Build the integer with the given small non-negative value.
    pub fn from_u64(v: u64) -> (r: BigInt)
        ensures
            r.wf(),
            r@ == v,
    {
        let lo = (v % 0x1_0000_0000) as u32;
        let hi = (v / 0x1_0000_0000) as u32;
        let mut limbs: Vec<u32> = Vec::new();
        proof {
            lemma_fundamental_div_mod(v as int, 0x1_0000_0000);
            lemma_mod_bound(v as int, 0x1_0000_0000);
        }
        if hi != 0 {
            limbs.push(lo);
            limbs.push(hi);
            proof {
                let s = limbs@;
                lemma_limbs_value_unfold(s);
                assert(s.skip(1) =~= seq![hi]);
                lemma_limbs_value_single(s.skip(1));
            }
        } else if lo != 0 {
            limbs.push(lo);
            proof {
                lemma_limbs_value_single(limbs@);
            }
        }
        BigInt { limbs, negative: false }
    }

    /// Build an integer from little-endian base-2^32 digits and a sign.
    /// Trailing zero digits are trimmed, and zero is never negative.
    pub fn from_limbs(limbs: Vec<u32>, negative: bool) -> (r: BigInt)
        ensures
            r.wf(),
            r@ == if negative {
                -(limbs_value(limbs@) as int)
            } else {
                limbs_value(limbs@) as int
            },
    {
        let mut digits = limbs;
        let ghost orig = digits@;
        while digits.len() > 0 && digits[digits.len() - 1] == 0
            invariant
                limbs_value(digits@) == limbs_value(orig),
            decreases digits.len(),
        {
            proof {
                lemma_limbs_value_drop_zero(digits@);
            }
            digits.pop();
        }
        let neg = negative && digits.len() > 0;
        BigInt { limbs: digits, negative: neg }
    }

    /// Whether the integer equals the given small non-negative value.
    pub fn eq_small(&self, v: u32) -> (r: bool)
        requires
            self.wf(),
        ensures
            r == (self@ == v),
    {
        if self.negative {
            proof {
                lemma_limbs_value_pos(self.limbs@);
            }
            false
        } else if self.limbs.len() == 0 {
            v == 0
        } else if self.limbs.len() == 1 {
            proof {
                lemma_limbs_value_single(self.limbs@);
            }
            self.limbs[0] == v
        } else {
            proof {
                lemma_limbs_value_ge_base(self.limbs@);
            }
            false
        }
    }

    /// Whether the integer is at most the given small non-negative value.
    pub fn le_small(&self, v: u32) -> (r: bool)
        requires
            self.wf(),
        ensures
            r == (self@ <= v),
    {
        if self.negative {
            true
        } else if self.limbs.len() == 0 {
            true
        } else if self.limbs.len() == 1 {
            proof {
                lemma_limbs_value_single(self.limbs@);
            }
            self.limbs[0] <= v
        } else {
            proof {
                lemma_limbs_value_ge_base(self.limbs@);
            }
            false
        }
    }

    /// Whether the integer is zero.
    pub fn is_zero(&self) -> (r: bool)
        requires
            self.wf(),
        ensures
            r == (self@ == 0),
    {
        if self.limbs.len() == 0 {
            true
        } else {
            proof {
                lemma_limbs_value_pos(self.limbs@);
            }
            false
        }
    }

    /// Whether the integer is strictly positive.
    pub fn is_positive(&self) -> (r: bool)
        requires
            self.wf(),
        ensures
            r == (self@ > 0),
    {
        if self.limbs.len() == 0 {
            false
        } else {
            proof {
                lemma_limbs_value_pos(self.limbs@);
            }
            !self.negative
        }
    }

    /// Whether the integer is strictly greater than one.
    pub fn gt_one(&self) -> (r: bool)
        requires
            self.wf(),
        ensures
            r == (self@ > 1),
    {
        if self.negative || self.limbs.len() == 0 {
            if self.limbs.len() > 0 {
                proof {
                    lemma_limbs_value_pos(self.limbs@);
                }
            }
            false
        } else if self.limbs.len() == 1 {
            proof {
                lemma_limbs_value_single(self.limbs@);
            }
            self.limbs[0] >= 2
        } else {
            proof {
                lemma_limbs_value_ge_base(self.limbs@);
            }
            true
        }
    }

    /// Whether the integer is even.
    pub fn is_even(&self) -> (r: bool)
        requires
            self.wf(),
        ensures
            r == (self@ % 2 == 0),
    {
        if self.limbs.len() == 0 {
            true
        } else {
            proof {
                lemma_limbs_value_parity(self.limbs@);
                if self.negative {
                    lemma_mod_neg(limbs_value(self.limbs@) as int, 2);
                    lemma_mod_bound(limbs_value(self.limbs@) as int, 2);
                }
            }
            self.limbs[0] % 2 == 0
        }
    }

    /// Whether two integers hold the same value.
    pub fn equals(&self, other: &BigInt) -> (r: bool)
        requires
            self.wf(),
            other.wf(),
        ensures
            r == (self@ == other@),
    {
        proof {
            if self.limbs@.len() > 0 {
                lemma_limbs_value_pos(self.limbs@);
            }
            if other.limbs@.len() > 0 {
                lemma_limbs_value_pos(other.limbs@);
            }
            if limbs_value(self.limbs@) == limbs_value(other.limbs@) {
                lemma_limbs_value_unique(self.limbs@, other.limbs@);
            }
        }
        if self.negative != other.negative {
            return false;
        }
        if self.limbs.len() != other.limbs.len() {
            return false;
        }
        let mut i: usize = 0;
        while i < self.limbs.len()
            invariant
                self.wf(),
                other.wf(),
                i <= self.limbs@.len(),
                self.limbs@.len() == other.limbs@.len(),
                self.negative == other.negative,
                forall|j: int| 0 <= j < i ==> self.limbs@[j] == other.limbs@[j],
                limbs_value(self.limbs@) == limbs_value(other.limbs@) ==> self.limbs@
                    =~= other.limbs@,
            decreases self.limbs@.len() - i,
        {
            if self.limbs[i] != other.limbs[i] {
                return false;
            }
            i += 1;
        }
        proof {
            assert(self.limbs@ =~= other.limbs@);
        }
        true
    }

    /// The Euclidean remainder: the result is in `[0, m)` whatever the sign
    /// of the dividend.
    pub fn rem_euclid(&self, m: &BigInt) -> (r: BigInt)
        requires
            self.wf(),
            m.wf(),
            m@ >= 1,
        ensures
            r.wf(),
            r@ == self@ % m@,
    {
        let t = big_rem_trunc(self, m);
        proof {
            if self@ < 0 {
                lemma_mod_neg(-self@, m@);
                lemma_mod_bound(-self@, m@);
            } else {
                lemma_mod_bound(self@, m@);
            }
        }
        if t.is_positive() || t.is_zero() {
            t
        } else {
            big_add(&t, m)
        }
    }
}

/// A digit sequence of length `l` holds a value below `2^(32 l)`.
proof fn lemma_limbs_value_bound(s: Seq<u32>)
    ensures
        limbs_value(s) < pow2(32 * s.len()),
    decreases s.len(),
{
    vstd::arithmetic::power2::lemma2_to64();
    if s.len() == 0 {
    } else {
        let t = s.skip(1);
        lemma_limbs_value_bound(t);
        lemma_limbs_value_unfold(s);
        vstd::arithmetic::power2::lemma_pow2_adds(32, 32 * t.len());
        assert(limbs_value(s) < 0x1_0000_0000 * (limbs_value(t) + 1));
        assert(0x1_0000_0000 * (limbs_value(t) + 1) <= 0x1_0000_0000 * pow2(32 * t.len()));
    }
}

/// Every value of the type has magnitude below `2^(32 (usize::MAX + 1))`,
/// since at most `usize::MAX` digits can be held.
pub proof fn lemma_view_bound(x: &BigInt)
    ensures
        -pow2(32 * (usize::MAX as nat) + 32) < x@ < pow2(32 * (usize::MAX as nat) + 32),
{
    lemma_limbs_value_bound(x.limbs@);
    assert(x.limbs@.len() <= usize::MAX) by {
        vstd::std_specs::vec::axiom_spec_len(&x.limbs);
    };
    if 32 * x.limbs@.len() < 32 * (usize::MAX as nat) + 32 {
        vstd::arithmetic::power2::lemma_pow2_strictly_increases(
            32 * x.limbs@.len(),
            32 * (usize::MAX as nat) + 32,
        );
    }
}

/// Dropping a trailing zero digit leaves the value unchanged.
proof fn lemma_limbs_value_drop_zero(s: Seq<u32>)
    requires
        s.len() > 0,
        s[s.len() - 1] == 0,
    ensures
        limbs_value(s.drop_last()) == limbs_value(s),
    decreases s.len(),
{
    if s.len() == 1 {
        lemma_limbs_value_single(s);
        assert(s.drop_last().len() == 0);
    } else {
        let t = s.skip(1);
        assert(t[t.len() - 1] == s[s.len() - 1]);
        lemma_limbs_value_drop_zero(t);
        let d = s.drop_last();
        lemma_limbs_value_unfold(s);
        lemma_limbs_value_unfold(d);
        assert(d.skip(1) =~= t.drop_last());
        assert(d[0] == s[0]);
    }
}

} // verus!
