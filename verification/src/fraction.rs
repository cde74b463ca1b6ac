use crate::bignat::BigNat;
use num_bigint::{BigInt, BigUint};
use num_rational::BigRational;
use vstd::arithmetic::div_mod::*;
use vstd::arithmetic::mul::*;
use vstd::prelude::*;

verus! {

/// `k` is a positive divisor of `n`.
pub open spec fn divides(k: nat, n: nat) -> bool {
    k > 0 && n % k == 0
}

/// `a` and `b` have no common divisor above one.
pub open spec fn coprime(a: nat, b: nat) -> bool {
    forall|k: nat| #![trigger divides(k, a), divides(k, b)] k > 1 ==> !(divides(k, a) && divides(k, b))
}

/// `n1 / d1` and `n2 / d2` are the same rational number (for positive denominators).
pub open spec fn same_ratio(n1: nat, d1: nat, n2: nat, d2: nat) -> bool {
    n1 * d2 == n2 * d1
}

/// A non-negative rational number `numer / denom` in lowest terms with a
/// positive denominator.
#[derive(Debug, PartialEq, Eq)]
pub struct Fraction {
    pub(crate) numer: BigNat,
    pub(crate) denom: BigNat,
}

impl View for Fraction {
    type V = (nat, nat);

    closed spec fn view(&self) -> (nat, nat) {
        (self.numer@, self.denom@)
    }
}

impl Fraction {
    /// The denominator is positive and the fraction is in lowest terms.
    #[verifier::type_invariant]
    pub open spec fn wf(self) -> bool {
        self@.1 > 0 && coprime(self@.0, self@.1)
    }

    /// This fraction is the rational number `n / d`.
    pub open spec fn represents(self, n: nat, d: nat) -> bool {
        same_ratio(self@.0, self@.1, n, d)
    }

    /// The integer `n` as the fraction `n / 1`.
    pub fn from_integer(n: BigNat) -> (r: Fraction)
        ensures
            r@ == (n@, 1nat),
    {
        let one = BigNat::from_u64(1);
        proof {
            assert forall|k: nat| k > 1 implies !divides(k, 1) by {
                lemma_small_mod(1, k);
            }
        }
        Fraction { numer: n, denom: one }
    }

    /// The numerator.
    pub fn numer(&self) -> (r: BigNat)
        ensures
            r@ == self@.0,
    {
        self.numer.copy()
    }

    /// The denominator.
    pub fn denom(&self) -> (r: BigNat)
        ensures
            r@ == self@.1,
    {
        self.denom.copy()
    }
}

/// The product, computed by num-rational's `BigRational` multiplication
/// (the operands converted from their digits, the result read back from
/// its numerator and denominator). The contract claims that the result is
/// the product of the two rationals; num-rational returns it reduced with
/// a positive denominator (the type invariant).
#[verifier::external_body]
fn frac_mul(a: &Fraction, b: &Fraction) -> (r: Fraction)
    ensures
        r.represents(a@.0 * b@.0, a@.1 * b@.1),
{
    let x = BigRational::new(BigInt::from(BigUint::new(a.numer.digits.clone())), BigInt::from(BigUint::new(a.denom.digits.clone())));
    let y = BigRational::new(BigInt::from(BigUint::new(b.numer.digits.clone())), BigInt::from(BigUint::new(b.denom.digits.clone())));
    let p = x * y;
    Fraction { numer: BigNat { digits: p.numer().magnitude().to_u32_digits() }, denom: BigNat { digits: p.denom().magnitude().to_u32_digits() } }
}

/// The quotient, computed by num-rational's `BigRational` division, which
/// panics on a zero divisor (left out by `requires`). The contract claims
/// that the result is the quotient of the two rationals, reduced.
#[verifier::external_body]
fn frac_div(a: &Fraction, b: &Fraction) -> (r: Fraction)
    requires
        b@.0 > 0,
    ensures
        r.represents(a@.0 * b@.1, a@.1 * b@.0),
{
    let x = BigRational::new(BigInt::from(BigUint::new(a.numer.digits.clone())), BigInt::from(BigUint::new(a.denom.digits.clone())));
    let y = BigRational::new(BigInt::from(BigUint::new(b.numer.digits.clone())), BigInt::from(BigUint::new(b.denom.digits.clone())));
    let q = x / y;
    Fraction { numer: BigNat { digits: q.numer().magnitude().to_u32_digits() }, denom: BigNat { digits: q.denom().magnitude().to_u32_digits() } }
}

/// The difference, computed by num-rational's `BigRational` subtraction.
/// `requires` keeps the difference non-negative, so that the numerator's
/// magnitude is the numerator. The contract claims that the result is the
/// difference of the two rationals, reduced.
#[verifier::external_body]
fn frac_sub(a: &Fraction, b: &Fraction) -> (r: Fraction)
    requires
        b@.0 * a@.1 <= a@.0 * b@.1,
    ensures
        r.represents((a@.0 * b@.1 - b@.0 * a@.1) as nat, a@.1 * b@.1),
{
    let x = BigRational::new(BigInt::from(BigUint::new(a.numer.digits.clone())), BigInt::from(BigUint::new(a.denom.digits.clone())));
    let y = BigRational::new(BigInt::from(BigUint::new(b.numer.digits.clone())), BigInt::from(BigUint::new(b.denom.digits.clone())));
    let d = x - y;
    Fraction { numer: BigNat { digits: d.numer().magnitude().to_u32_digits() }, denom: BigNat { digits: d.denom().magnitude().to_u32_digits() } }
}

/// `a < b`, decided by num-rational's ordering of `BigRational`. The
/// contract claims the order of the two rationals (positive denominators).
#[verifier::external_body]
fn frac_lt(a: &Fraction, b: &Fraction) -> (r: bool)
    ensures
        r == (a@.0 * b@.1 < b@.0 * a@.1),
{
    let x = BigRational::new(BigInt::from(BigUint::new(a.numer.digits.clone())), BigInt::from(BigUint::new(a.denom.digits.clone())));
    let y = BigRational::new(BigInt::from(BigUint::new(b.numer.digits.clone())), BigInt::from(BigUint::new(b.denom.digits.clone())));
    x < y
}

/// Equal ratios chain: `n1/d1 = n2/d2 = n3/d3` with `d2 > 0`.
pub proof fn lemma_same_ratio_trans(n1: nat, d1: nat, n2: nat, d2: nat, n3: nat, d3: nat)
    requires
        same_ratio(n1, d1, n2, d2),
        same_ratio(n2, d2, n3, d3),
        d2 > 0,
    ensures
        same_ratio(n1, d1, n3, d3),
{
    assert(d2 * (n1 * d3) == d2 * (n3 * d1)) by (nonlinear_arith)
        requires
            n1 * d2 == n2 * d1,
            n2 * d3 == n3 * d2,
    ;
    lemma_mul_equality_converse(d2 as int, (n1 * d3) as int, (n3 * d1) as int);
}

/// The same rational number compares the same way against an integer.
pub proof fn lemma_same_ratio_order(n1: nat, d1: nat, n2: nat, d2: nat, k: nat)
    requires
        same_ratio(n1, d1, n2, d2),
        d1 > 0,
        d2 > 0,
    ensures
        (n1 < k * d1) == (n2 < k * d2),
        (n1 == k * d1) == (n2 == k * d2),
{
    assert(n1 * d2 == n2 * d1);
    assert((n1 < k * d1) == (n1 * d2 < k * d1 * d2)) by (nonlinear_arith)
        requires
            d2 > 0,
    ;
    assert((n2 < k * d2) == (n2 * d1 < k * d2 * d1)) by (nonlinear_arith)
        requires
            d1 > 0,
    ;
    assert((n1 == k * d1) == (n1 * d2 == k * d1 * d2)) by (nonlinear_arith)
        requires
            d2 > 0,
    ;
    assert((n2 == k * d2) == (n2 * d1 == k * d2 * d1)) by (nonlinear_arith)
        requires
            d1 > 0,
    ;
    assert(k * d1 * d2 == k * d2 * d1) by (nonlinear_arith);
}

/// The product of `x` and `y`, given the rationals that they stand for.
pub fn mul_exact(
    x: &Fraction,
    y: &Fraction,
    Ghost(a): Ghost<nat>,
    Ghost(b): Ghost<nat>,
    Ghost(c): Ghost<nat>,
    Ghost(e): Ghost<nat>,
) -> (r: Fraction)
    requires
        x.represents(a, b),
        y.represents(c, e),
    ensures
        r.represents(a * c, b * e),
{
    proof {
        use_type_invariant(x);
        use_type_invariant(y);
    }
    let r = frac_mul(x, y);
    proof {
        let (xn, xd, yn, yd) = (x@.0, x@.1, y@.0, y@.1);
        assert(same_ratio(xn * yn, xd * yd, a * c, b * e)) by (nonlinear_arith)
            requires
                xn * b == a * xd,
                yn * e == c * yd,
        ;
        assert(xd * yd > 0) by (nonlinear_arith)
            requires
                xd > 0,
                yd > 0,
        ;
        lemma_same_ratio_trans(r@.0, r@.1, xn * yn, xd * yd, a * c, b * e);
    }
    r
}

/// The quotient of `x` by a positive `y`, given the rationals that they stand for.
pub fn div_exact(
    x: &Fraction,
    y: &Fraction,
    Ghost(a): Ghost<nat>,
    Ghost(b): Ghost<nat>,
    Ghost(c): Ghost<nat>,
    Ghost(e): Ghost<nat>,
) -> (r: Fraction)
    requires
        x.represents(a, b),
        y.represents(c, e),
        c > 0,
        e > 0,
    ensures
        r.represents(a * e, b * c),
{
    proof {
        use_type_invariant(x);
        use_type_invariant(y);
        let (yn, yd) = (y@.0, y@.1);
        assert(yn > 0) by (nonlinear_arith)
            requires
                yn * e == c * yd,
                c > 0,
                e > 0,
                yd > 0,
        ;
    }
    let r = frac_div(x, y);
    proof {
        let (xn, xd, yn, yd) = (x@.0, x@.1, y@.0, y@.1);
        assert(same_ratio(xn * yd, xd * yn, a * e, b * c)) by (nonlinear_arith)
            requires
                xn * b == a * xd,
                yn * e == c * yd,
        ;
        assert(xd * yn > 0) by (nonlinear_arith)
            requires
                xd > 0,
                yn > 0,
        ;
        lemma_same_ratio_trans(r@.0, r@.1, xn * yd, xd * yn, a * e, b * c);
    }
    r
}

/// Whether `x < y`, given the rationals that they stand for.
pub fn lt_exact(
    x: &Fraction,
    y: &Fraction,
    Ghost(a): Ghost<nat>,
    Ghost(b): Ghost<nat>,
    Ghost(c): Ghost<nat>,
    Ghost(e): Ghost<nat>,
) -> (r: bool)
    requires
        x.represents(a, b),
        y.represents(c, e),
        b > 0,
        e > 0,
    ensures
        r == (a * e < c * b),
{
    proof {
        use_type_invariant(x);
        use_type_invariant(y);
    }
    let r = frac_lt(x, y);
    proof {
        let (xn, xd, yn, yd) = (x@.0, x@.1, y@.0, y@.1);
        // xn*yd*(b*e) == a*e*(xd*yd) and yn*xd*(b*e) == c*b*(xd*yd)
        assert(xn * yd * (b * e) == (a * e) * (xd * yd)) by (nonlinear_arith)
            requires
                xn * b == a * xd,
        ;
        assert(yn * xd * (b * e) == (c * b) * (xd * yd)) by (nonlinear_arith)
            requires
                yn * e == c * yd,
        ;
        assert((xn * yd < yn * xd) == (xn * yd * (b * e) < yn * xd * (b * e))) by (nonlinear_arith)
            requires
                b > 0,
                e > 0,
        ;
        assert(((a * e) < (c * b)) == ((a * e) * (xd * yd) < (c * b) * (xd * yd))) by (nonlinear_arith)
            requires
                xd > 0,
                yd > 0,
        ;
    }
    r
}

/// The difference `x - y` of `y <= x`, given the rationals that they stand for.
pub fn sub_exact(
    x: &Fraction,
    y: &Fraction,
    Ghost(a): Ghost<nat>,
    Ghost(b): Ghost<nat>,
    Ghost(c): Ghost<nat>,
    Ghost(e): Ghost<nat>,
) -> (r: Fraction)
    requires
        x.represents(a, b),
        y.represents(c, e),
        b > 0,
        e > 0,
        c * b <= a * e,
    ensures
        r.represents((a * e - c * b) as nat, b * e),
{
    proof {
        use_type_invariant(x);
        use_type_invariant(y);
        let (xn, xd, yn, yd) = (x@.0, x@.1, y@.0, y@.1);
        assert(yn * xd * (b * e) == (c * b) * (xd * yd)) by (nonlinear_arith)
            requires
                yn * e == c * yd,
        ;
        assert(xn * yd * (b * e) == (a * e) * (xd * yd)) by (nonlinear_arith)
            requires
                xn * b == a * xd,
        ;
        assert(yn * xd <= xn * yd) by (nonlinear_arith)
            requires
                yn * xd * (b * e) == (c * b) * (xd * yd),
                xn * yd * (b * e) == (a * e) * (xd * yd),
                c * b <= a * e,
                b > 0,
                e > 0,
                xd > 0,
                yd > 0,
        ;
    }
    let r = frac_sub(x, y);
    proof {
        let (xn, xd, yn, yd) = (x@.0, x@.1, y@.0, y@.1);
        assert(yn * xd * (b * e) == (c * b) * (xd * yd)) by (nonlinear_arith)
            requires
                yn * e == c * yd,
        ;
        assert(xn * yd * (b * e) == (a * e) * (xd * yd)) by (nonlinear_arith)
            requires
                xn * b == a * xd,
        ;
        let u: int = xn * yd - yn * xd;
        let v: int = a * e - c * b;
        assert(u * (b * e) == xn * yd * (b * e) - yn * xd * (b * e)) by (nonlinear_arith)
            requires
                u == xn * yd - yn * xd,
        ;
        assert(v * (xd * yd) == (a * e) * (xd * yd) - (c * b) * (xd * yd)) by (nonlinear_arith)
            requires
                v == a * e - c * b,
        ;
        assert(same_ratio((xn * yd - yn * xd) as nat, xd * yd, (a * e - c * b) as nat, b * e));
        assert(xd * yd > 0) by (nonlinear_arith)
            requires
                xd > 0,
                yd > 0,
        ;
        lemma_same_ratio_trans(r@.0, r@.1, (xn * yd - yn * xd) as nat, xd * yd, (a * e - c * b) as nat, b * e);
    }
    r
}

} // verus!
