//! Arbitrary-precision integers: a sign and a magnitude.

use crate::bignat::BigNat;
use vstd::arithmetic::div_mod::lemma_fundamental_div_mod;
use vstd::prelude::*;

verus! {

/// The integer with the given sign and magnitude.
pub open spec fn signed(negative: bool, magnitude: nat) -> int {
    if negative {
        -(magnitude as int)
    } else {
        magnitude as int
    }
}

/// The absolute value of `x`.
pub open spec fn magnitude_of(x: int) -> nat {
    if x < 0 {
        (-x) as nat
    } else {
        x as nat
    }
}

/// An arbitrary-precision integer.
#[derive(Debug)]
pub struct BigInt {
    negative: bool,
    magnitude: BigNat,
}

impl View for BigInt {
    type V = int;

    closed spec fn view(&self) -> int {
        signed(self.negative, self.magnitude@)
    }
}

impl Clone for BigInt {
    fn clone(&self) -> (r: Self)
        ensures
            r@ == self@,
            r.wf() == self.wf(),
    {
        BigInt { negative: self.negative, magnitude: self.magnitude.clone() }
    }
}

impl BigInt {
    /// The magnitude is well formed and zero is not negative.
    pub closed spec fn wf(&self) -> bool {
        &&& self.magnitude.wf()
        &&& self.negative ==> self.magnitude@ > 0
    }

    /// The integer `x`.
    pub fn from_i64(x: i64) -> (r: BigInt)
        ensures
            r.wf(),
            r@ == x,
    {
        let magnitude: u64 = if x >= 0 {
            x as u64
        } else {
            ((-(x + 1)) as u64) + 1
        };
        BigInt { negative: x < 0, magnitude: BigNat::from_u64(magnitude) }
    }

    /// The natural number `n` as an integer.
    pub fn from_nat(n: BigNat) -> (r: BigInt)
        requires
            n.wf(),
        ensures
            r.wf(),
            r@ == n@,
    {
        BigInt { negative: false, magnitude: n }
    }

    /// Whether the number is zero.
    pub fn is_zero(&self) -> (r: bool)
        requires
            self.wf(),
        ensures
            r == (self@ == 0),
    {
        self.magnitude.is_zero()
    }

    /// Whether the number is below zero.
    pub fn is_negative(&self) -> (r: bool)
        requires
            self.wf(),
        ensures
            r == (self@ < 0),
    {
        self.negative
    }

    /// The absolute value.
    pub fn magnitude(&self) -> (r: &BigNat)
        requires
            self.wf(),
        ensures
            r.wf(),
            r@ == magnitude_of(self@),
    {
        &self.magnitude
    }

    /// Whether the two numbers are equal.
    pub fn equals(&self, other: &BigInt) -> (r: bool)
        requires
            self.wf(),
            other.wf(),
        ensures
            r == (self@ == other@),
    {
        self.negative == other.negative && self.magnitude.equals(&other.magnitude)
    }

    /// The number with the opposite sign.
    pub fn neg(&self) -> (r: BigInt)
        requires
            self.wf(),
        ensures
            r.wf(),
            r@ == -self@,
    {
        let flipped = !self.negative && !self.magnitude.is_zero();
        BigInt { negative: flipped, magnitude: self.magnitude.clone() }
    }

    /// The product of the two numbers.
    pub fn mul(&self, other: &BigInt) -> (r: BigInt)
        requires
            self.wf(),
            other.wf(),
        ensures
            r.wf(),
            r@ == self@ * other@,
    {
        let magnitude = self.magnitude.mul(&other.magnitude);
        let negative = (self.negative != other.negative) && !magnitude.is_zero();
        proof {
            let a = self.magnitude@ as int;
            let b = other.magnitude@ as int;
            assert((-a) * b == -(a * b)) by (nonlinear_arith);
            assert(a * (-b) == -(a * b)) by (nonlinear_arith);
            assert((-a) * (-b) == a * b) by (nonlinear_arith);
        }
        BigInt { negative, magnitude }
    }

    /// The difference of the two numbers.
    pub fn sub(&self, other: &BigInt) -> (r: BigInt)
        requires
            self.wf(),
            other.wf(),
        ensures
            r.wf(),
            r@ == self@ - other@,
    {
        if self.negative != other.negative {
            let magnitude = self.magnitude.add(&other.magnitude);
            let negative = self.negative && !magnitude.is_zero();
            BigInt { negative, magnitude }
        } else if !self.magnitude.lt(&other.magnitude) {
            let magnitude = self.magnitude.sub(&other.magnitude);
            let negative = self.negative && !magnitude.is_zero();
            BigInt { negative, magnitude }
        } else {
            let magnitude = other.magnitude.sub(&self.magnitude);
            BigInt { negative: !self.negative, magnitude }
        }
    }

    /// The quotient by a positive divisor of the number.
    pub fn div_exact(&self, divisor: &BigNat) -> (r: BigInt)
        requires
            self.wf(),
            divisor.wf(),
            divisor@ > 0,
            magnitude_of(self@) % divisor@ == 0,
        ensures
            r.wf(),
            r@ * divisor@ == self@,
    {
        let (quotient, _) = self.magnitude.div_rem(divisor);
        proof {
            let m = self.magnitude@ as int;
            let d = divisor@ as int;
            let q = quotient@ as int;
            lemma_fundamental_div_mod(m, d);
            assert(m == d * q);
            assert(q * d == m) by (nonlinear_arith)
                requires
                    m == d * q,
            ;
            assert((-q) * d == -m) by (nonlinear_arith)
                requires
                    q * d == m,
            ;
            assert(q == 0 ==> m == 0);
        }
        let negative = self.negative && !quotient.is_zero();
        BigInt { negative, magnitude: quotient }
    }
}

} // verus!
