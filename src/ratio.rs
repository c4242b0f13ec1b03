//! Exact non-negative fractions over `Natural` numerators and denominators.
//!
//! Operations do not reduce: each result is the pair of numbers that the
//! textbook formula gives, which `Frac` and the `frac_*` functions state.

use vstd::prelude::*;
use crate::natural::Natural;

verus! {

/// A fraction `num / den` as a pair of mathematical integers.
pub struct Frac {
    pub num: int,
    pub den: int,
}

/// The integer `n` as the fraction `n / 1`.
pub open spec fn frac_of_int(n: int) -> Frac {
    Frac { num: n, den: 1 }
}

/// `a + b`, over the denominator `a.den * b.den`.
pub open spec fn frac_add(a: Frac, b: Frac) -> Frac {
    Frac { num: a.num * b.den + b.num * a.den, den: a.den * b.den }
}

/// `a - b`, over the denominator `a.den * b.den`.
pub open spec fn frac_sub(a: Frac, b: Frac) -> Frac {
    Frac { num: a.num * b.den - b.num * a.den, den: a.den * b.den }
}

/// `a * k / m`.
pub open spec fn frac_scale(a: Frac, k: int, m: int) -> Frac {
    Frac { num: a.num * k, den: a.den * m }
}

/// The mean `(a + b) / 2`.
pub open spec fn frac_mean(a: Frac, b: Frac) -> Frac {
    Frac { num: a.num * b.den + b.num * a.den, den: 2 * (a.den * b.den) }
}

/// Half of `a`.
pub open spec fn frac_half(a: Frac) -> Frac {
    Frac { num: a.num, den: 2 * a.den }
}

/// `a < b`, for positive denominators.
pub open spec fn frac_lt(a: Frac, b: Frac) -> bool {
    a.num * b.den < b.num * a.den
}

/// `a` and `b` denote the same number, for positive denominators.
pub open spec fn frac_eqv(a: Frac, b: Frac) -> bool {
    a.num * b.den == b.num * a.den
}

/// A fraction with a non-negative numerator and a positive denominator.
pub open spec fn frac_wf(a: Frac) -> bool {
    a.num >= 0 && a.den > 0
}

/// A non-negative fraction; the denominator is never zero.
pub struct Ratio {
    num: Natural,
    den: Natural,
}

impl View for Ratio {
    type V = Frac;

    closed spec fn view(&self) -> Frac {
        Frac { num: self.num@ as int, den: self.den@ as int }
    }
}

impl Ratio {
    #[verifier::type_invariant]
    spec fn inv(&self) -> bool {
        self.den@ > 0
    }

    /// The integer `n`.
    pub fn from_u64(n: u64) -> (r: Ratio)
        ensures
            r@ == frac_of_int(n as int),
            frac_wf(r@),
    {
        Ratio { num: Natural::from_u64(n), den: Natural::from_u64(1) }
    }

    /// The fraction `num / den`, for `den > 0`.
    pub fn new(num: Natural, den: Natural) -> (r: Ratio)
        requires
            den@ > 0,
        ensures
            r@ == (Frac { num: num@ as int, den: den@ as int }),
            frac_wf(r@),
    {
        Ratio { num, den }
    }

    /// The integer `n`.
    pub fn from_natural(n: Natural) -> (r: Ratio)
        ensures
            r@ == frac_of_int(n@ as int),
            frac_wf(r@),
    {
        Ratio { num: n, den: Natural::from_u64(1) }
    }

    /// The numerator.
    pub fn numerator(&self) -> (r: &Natural)
        ensures
            r@ == self@.num,
    {
        &self.num
    }

    /// The denominator.
    pub fn denominator(&self) -> (r: &Natural)
        ensures
            r@ == self@.den,
            r@ > 0,
    {
        proof {
            use_type_invariant(self);
        }
        &self.den
    }

    /// A copy of this ratio.
    pub fn copy(&self) -> (r: Ratio)
        ensures
            r@ == self@,
            frac_wf(r@),
    {
        let one = Natural::from_u64(1);
        proof {
            use_type_invariant(self);
        }
        Ratio { num: self.num.mul(&one), den: self.den.mul(&one) }
    }

    /// The sum `self + other`.
    pub fn add(&self, other: &Ratio) -> (r: Ratio)
        ensures
            r@ == frac_add(self@, other@),
            frac_wf(r@),
    {
        proof {
            use_type_invariant(self);
            use_type_invariant(other);
            lemma_positive_product(self.den@ as int, other.den@ as int);
        }
        let num = self.num.mul(&other.den).add(&other.num.mul(&self.den));
        let den = self.den.mul(&other.den);
        Ratio { num, den }
    }

    /// The difference `self - other`; `other` must not exceed `self`.
    pub fn sub(&self, other: &Ratio) -> (r: Ratio)
        requires
            !frac_lt(self@, other@),
        ensures
            r@ == frac_sub(self@, other@),
            frac_wf(r@),
    {
        proof {
            use_type_invariant(self);
            use_type_invariant(other);
            lemma_positive_product(self.den@ as int, other.den@ as int);
        }
        let left = self.num.mul(&other.den);
        let right = other.num.mul(&self.den);
        let num = left.sub(&right);
        let den = self.den.mul(&other.den);
        Ratio { num, den }
    }

    /// The product `self * k / m`, for `m > 0`.
    pub fn scale(&self, k: &Natural, m: &Natural) -> (r: Ratio)
        requires
            m@ > 0,
        ensures
            r@ == frac_scale(self@, k@ as int, m@ as int),
            frac_wf(r@),
    {
        proof {
            use_type_invariant(self);
            lemma_positive_product(self.den@ as int, m@ as int);
        }
        let num = self.num.mul(k);
        let den = self.den.mul(m);
        Ratio { num, den }
    }

    /// The mean `(self + other) / 2`.
    pub fn mean(&self, other: &Ratio) -> (r: Ratio)
        ensures
            r@ == frac_mean(self@, other@),
            frac_wf(r@),
    {
        proof {
            use_type_invariant(self);
            use_type_invariant(other);
            lemma_positive_product(self.den@ as int, other.den@ as int);
        }
        let num = self.num.mul(&other.den).add(&other.num.mul(&self.den));
        let den = Natural::from_u64(2).mul(&self.den.mul(&other.den));
        Ratio { num, den }
    }

    /// Whether `self < other`.
    pub fn lt(&self, other: &Ratio) -> (r: bool)
        ensures
            r == frac_lt(self@, other@),
            frac_wf(self@),
            frac_wf(other@),
    {
        proof {
            use_type_invariant(self);
            use_type_invariant(other);
        }
        let left = self.num.mul(&other.den);
        let right = other.num.mul(&self.den);
        left.lt(&right)
    }
}

proof fn lemma_positive_product(a: int, b: int)
    requires
        a > 0,
        b > 0,
    ensures
        a * b > 0,
        2 * (a * b) > 0,
{
    assert(a * b > 0) by (nonlinear_arith)
        requires
            a > 0,
            b > 0,
    ;
}

/// Zero is the identity of addition.
pub proof fn lemma_add_zero(a: Frac)
    ensures
        frac_add(frac_of_int(0), a) == a,
        frac_add(a, frac_of_int(0)) == a,
{
}

/// Integers add as integers.
pub proof fn lemma_add_ints(x: int, y: int)
    ensures
        frac_add(frac_of_int(x), frac_of_int(y)) == frac_of_int(x + y),
{
}

/// Addition is commutative, pair for pair.
pub proof fn lemma_add_commutative(a: Frac, b: Frac)
    ensures
        frac_add(a, b) == frac_add(b, a),
{
    assert(a.den * b.den == b.den * a.den) by (nonlinear_arith);
}

/// Addition is associative, pair for pair.
pub proof fn lemma_add_associative(a: Frac, b: Frac, c: Frac)
    ensures
        frac_add(frac_add(a, b), c) == frac_add(a, frac_add(b, c)),
{
    let ab = frac_add(a, b);
    let bc = frac_add(b, c);
    assert((a.num * b.den + b.num * a.den) * c.den == a.num * (b.den * c.den) + b.num * c.den
        * a.den) by (nonlinear_arith);
    assert(c.num * (a.den * b.den) == c.num * b.den * a.den) by (nonlinear_arith);
    assert((b.num * c.den + c.num * b.den) * a.den == b.num * c.den * a.den + c.num * b.den
        * a.den) by (nonlinear_arith);
    assert((a.den * b.den) * c.den == a.den * (b.den * c.den)) by (nonlinear_arith);
}

/// Swapping the middle terms of a sum of four.
pub proof fn lemma_add_interchange(a: Frac, b: Frac, c: Frac, d: Frac)
    ensures
        frac_add(frac_add(a, b), frac_add(c, d)) == frac_add(frac_add(a, c), frac_add(b, d)),
{
    lemma_add_associative(a, b, frac_add(c, d));
    lemma_add_associative(b, c, d);
    lemma_add_commutative(b, c);
    lemma_add_associative(c, b, d);
    lemma_add_associative(a, c, frac_add(b, d));
}

/// Sums of well-formed fractions are well-formed.
pub proof fn lemma_add_wf(a: Frac, b: Frac)
    requires
        frac_wf(a),
        frac_wf(b),
    ensures
        frac_wf(frac_add(a, b)),
{
    assert(a.num * b.den + b.num * a.den >= 0) by (nonlinear_arith)
        requires
            frac_wf(a),
            frac_wf(b),
    ;
    assert(a.den * b.den > 0) by (nonlinear_arith)
        requires
            frac_wf(a),
            frac_wf(b),
    ;
}

/// Equivalence through a fraction with a positive denominator is transitive.
pub proof fn lemma_eqv_transitive(a: Frac, b: Frac, c: Frac)
    requires
        b.den > 0,
        frac_eqv(a, b),
        frac_eqv(b, c),
    ensures
        frac_eqv(a, c),
{
    assert((a.num * c.den - c.num * a.den) * b.den == 0) by (nonlinear_arith)
        requires
            a.num * b.den == b.num * a.den,
            b.num * c.den == c.num * b.den,
    ;
    assert(a.num * c.den - c.num * a.den == 0) by (nonlinear_arith)
        requires
            (a.num * c.den - c.num * a.den) * b.den == 0,
            b.den > 0,
    ;
}

/// Sums of equivalent terms are equivalent.
pub proof fn lemma_eqv_add(a: Frac, a2: Frac, b: Frac, b2: Frac)
    requires
        frac_eqv(a, a2),
        frac_eqv(b, b2),
    ensures
        frac_eqv(frac_add(a, b), frac_add(a2, b2)),
{
    lemma_mul_swap(a.num, b.den, a2.den, b2.den);
    lemma_mul_swap(b.num, a.den, b2.den, a2.den);
    lemma_mul_swap(a2.num, b2.den, a.den, b.den);
    lemma_mul_swap(b2.num, a2.den, b.den, a.den);
    lemma_mul_distributes(a.num * b.den, b.num * a.den, a2.den * b2.den);
    lemma_mul_distributes(a2.num * b2.den, b2.num * a2.den, a.den * b.den);
    lemma_mul_commutes(a2.den, b2.den);
    lemma_mul_commutes(a.den, b.den);
    lemma_mul_commutes(a.den, a2.den);
    lemma_mul_commutes(b.den, b2.den);
    lemma_mul_commutes(b2.den, a2.den);
}

proof fn lemma_mul_swap(a: int, b: int, c: int, d: int)
    ensures
        (a * b) * (c * d) == (a * c) * (b * d),
{
    assert((a * b) * (c * d) == (a * c) * (b * d)) by (nonlinear_arith);
}

proof fn lemma_mul_distributes(p: int, q: int, r: int)
    ensures
        (p + q) * r == p * r + q * r,
{
    assert((p + q) * r == p * r + q * r) by (nonlinear_arith);
}

proof fn lemma_mul_commutes(p: int, q: int)
    ensures
        p * q == q * p,
{
    assert(p * q == q * p) by (nonlinear_arith);
}

/// Halves of equivalent fractions are equivalent.
pub proof fn lemma_eqv_half(a: Frac, a2: Frac)
    requires
        frac_eqv(a, a2),
    ensures
        frac_eqv(frac_half(a), frac_half(a2)),
{
    assert(a.num * (2 * a2.den) == a2.num * (2 * a.den)) by (nonlinear_arith)
        requires
            a.num * a2.den == a2.num * a.den,
    ;
}

/// Two halves add up to half of the sum.
pub proof fn lemma_half_add(a: Frac, b: Frac)
    ensures
        frac_eqv(frac_add(frac_half(a), frac_half(b)), frac_half(frac_add(a, b))),
{
    assert((a.num * (2 * b.den) + b.num * (2 * a.den)) * (2 * (a.den * b.den)) == (a.num * b.den
        + b.num * a.den) * ((2 * a.den) * (2 * b.den))) by (nonlinear_arith);
}

/// Two halves of one value add up to that value.
pub proof fn lemma_half_twice(a: Frac)
    ensures
        frac_eqv(frac_half(frac_add(a, a)), a),
{
    assert((a.num * a.den + a.num * a.den) * a.den == a.num * (2 * (a.den * a.den)))
        by (nonlinear_arith);
}

/// Means of well-formed fractions are well-formed.
pub proof fn lemma_mean_wf(a: Frac, b: Frac)
    requires
        frac_wf(a),
        frac_wf(b),
    ensures
        frac_wf(frac_mean(a, b)),
{
    lemma_add_wf(a, b);
}

} // verus!
