use num_bigint::BigUint;
use num_integer::Integer;
use vstd::prelude::*;

verus! {

/// The radix of the digit representation: 2^32.
pub open spec fn digit_base() -> nat {
    0x1_0000_0000
}

/// The number that little-endian base-2^32 digits stand for.
pub open spec fn digits_value(ds: Seq<u32>) -> nat
    decreases ds.len(),
{
    if ds.len() == 0 {
        0
    } else {
        ds[0] as nat + digit_base() * digits_value(ds.drop_first())
    }
}

/// No most significant zero digit: zero is the empty sequence.
pub open spec fn is_normalized(ds: Seq<u32>) -> bool {
    ds.len() == 0 || ds.last() != 0
}

/// An arbitrary-precision natural number held as its normalized
/// little-endian base-2^32 digits.
#[derive(Debug, PartialEq, Eq)]
pub struct BigNat {
    pub(crate) digits: Vec<u32>,
}

impl View for BigNat {
    type V = nat;

    closed spec fn view(&self) -> nat {
        digits_value(self.digits@)
    }
}

/// A trailing zero digit does not change the value.
pub proof fn lemma_digits_value_push_zero(ds: Seq<u32>)
    ensures
        digits_value(ds.push(0)) == digits_value(ds),
    decreases ds.len(),
{
    if ds.len() == 0 {
        assert(ds.push(0).drop_first() =~= Seq::<u32>::empty());
        assert(digits_value(Seq::<u32>::empty()) == 0);
    } else {
        assert(ds.push(0).drop_first() =~= ds.drop_first().push(0));
        lemma_digits_value_push_zero(ds.drop_first());
    }
}

/// A normalized digit sequence is empty exactly when it stands for zero.
pub proof fn lemma_normalized_zero(ds: Seq<u32>)
    requires
        is_normalized(ds),
    ensures
        (digits_value(ds) == 0) == (ds.len() == 0),
    decreases ds.len(),
{
    if ds.len() > 1 {
        assert(ds.drop_first().last() == ds.last());
        lemma_normalized_zero(ds.drop_first());
    } else if ds.len() == 1 {
        assert(ds.drop_first().len() == 0);
    }
}

impl BigNat {
    #[verifier::type_invariant]
    spec fn inv(self) -> bool {
        is_normalized(self.digits@)
    }

    /// The digits of this number, least significant first.
    pub closed spec fn spec_digits(&self) -> Seq<u32> {
        self.digits@
    }

    /// Zero.
    pub fn zero() -> (r: BigNat)
        ensures
            r@ == 0,
    {
        let r = BigNat { digits: Vec::new() };
        proof {
            reveal_with_fuel(digits_value, 1);
        }
        r
    }

    /// The number `x`.
    pub fn from_u64(x: u64) -> (r: BigNat)
        ensures
            r@ == x as nat,
    {
        let lo: u32 = x as u32;
        let hi: u32 = (x >> 32u64) as u32;
        assert(x == lo as u64 + (hi as u64) * 0x1_0000_0000u64) by (bit_vector)
            requires
                lo == x as u32,
                hi == (x >> 32u64) as u32,
        ;
        let mut digits: Vec<u32> = Vec::new();
        if x != 0 {
            digits.push(lo);
            if hi != 0 {
                digits.push(hi);
            }
        }
        proof {
            reveal_with_fuel(digits_value, 3);
            if x != 0 && hi != 0 {
                assert(digits@.drop_first().drop_first().len() == 0);
            } else if x != 0 {
                assert(digits@.drop_first().len() == 0);
            }
        }
        BigNat { digits }
    }

    /// The number whose little-endian base-2^32 digits are `digits`;
    /// most significant zero digits are dropped.
    pub fn from_digits(digits: Vec<u32>) -> (r: BigNat)
        ensures
            r@ == digits_value(digits@),
            r.spec_digits() =~= digits@.subrange(0, r.spec_digits().len() as int),
    {
        let mut ds = digits;
        let ghost input = ds@;
        while ds.len() > 0 && ds[ds.len() - 1] == 0
            invariant
                digits_value(ds@) == digits_value(input),
                ds@.len() <= input.len(),
                ds@ =~= input.subrange(0, ds@.len() as int),
            decreases ds.len(),
        {
            let ghost before = ds@;
            ds.pop();
            proof {
                assert(before =~= ds@.push(0));
                lemma_digits_value_push_zero(ds@);
            }
        }
        BigNat { digits: ds }
    }

    /// A copy of the digits, least significant first.
    pub fn digits(&self) -> (r: Vec<u32>)
        ensures
            r@ == self.spec_digits(),
            digits_value(r@) == self@,
    {
        let mut r: Vec<u32> = Vec::new();
        let n = self.digits.len();
        for i in 0..n
            invariant
                n == self.digits@.len(),
                r@ =~= self.digits@.subrange(0, i as int),
        {
            r.push(self.digits[i]);
        }
        assert(r@ =~= self.digits@);
        r
    }

    /// An equal number.
    pub fn copy(&self) -> (r: BigNat)
        ensures
            r@ == self@,
    {
        proof {
            use_type_invariant(self);
        }
        let ds = self.digits();
        BigNat { digits: ds }
    }

    /// Whether this number is zero.
    pub fn is_zero(&self) -> (b: bool)
        ensures
            b == (self@ == 0),
    {
        proof {
            use_type_invariant(self);
            lemma_normalized_zero(self.digits@);
        }
        self.digits.len() == 0
    }
}

/// The product, computed by num-bigint's `BigUint` multiplication.
/// The contract claims the exact product, and that the digits read back
/// with `BigUint::to_u32_digits` are normalized (the type invariant).
#[verifier::external_body]
pub(crate) fn big_mul(a: &BigNat, b: &BigNat) -> (r: BigNat)
    ensures
        r@ == a@ * b@,
{
    let p = BigUint::new(a.digits.clone()) * BigUint::new(b.digits.clone());
    BigNat { digits: p.to_u32_digits() }
}

/// The quotient rounded down, computed by num-bigint's `BigUint` division,
/// which panics on a zero divisor (left out by `requires`).
/// The contract claims the floored quotient.
#[verifier::external_body]
pub(crate) fn big_div(a: &BigNat, b: &BigNat) -> (r: BigNat)
    requires
        b@ > 0,
    ensures
        r@ == a@ / b@,
{
    let q = BigUint::new(a.digits.clone()) / BigUint::new(b.digits.clone());
    BigNat { digits: q.to_u32_digits() }
}

/// Quotient and remainder, computed by num-integer's `Integer::div_rem` on
/// `BigUint`, which panics on a zero divisor (left out by `requires`).
/// The contract claims the floored quotient and the remainder.
#[verifier::external_body]
pub(crate) fn big_div_rem(a: &BigNat, b: &BigNat) -> (r: (BigNat, BigNat))
    requires
        b@ > 0,
    ensures
        r.0@ == a@ / b@,
        r.1@ == a@ % b@,
{
    let (q, m) = BigUint::new(a.digits.clone()).div_rem(&BigUint::new(b.digits.clone()));
    (BigNat { digits: q.to_u32_digits() }, BigNat { digits: m.to_u32_digits() })
}

/// The sum, computed by num-bigint's `BigUint` addition.
/// The contract claims the exact sum.
#[verifier::external_body]
pub(crate) fn big_add(a: &BigNat, b: &BigNat) -> (r: BigNat)
    ensures
        r@ == a@ + b@,
{
    let s = BigUint::new(a.digits.clone()) + BigUint::new(b.digits.clone());
    BigNat { digits: s.to_u32_digits() }
}

} // verus!
