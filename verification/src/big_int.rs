//! Signed integers: a sign on top of an unsigned magnitude.

use vstd::prelude::*;
use crate::big_uint::BigUInt;

verus! {

/// The sign of a signed integer.
#[derive(Debug, PartialEq, Eq, Clone, Copy, Structural)]
pub enum Sign {
    Plus,
    Minus,
}

/// A signed integer of unbounded size.
///
/// Any pair of a sign and a magnitude is a valid value; a zero magnitude
/// stands for zero under either sign. Every operation returns its result in
/// canonical form, where zero carries the sign `Plus`.
#[derive(Debug)]
pub struct BigInt {
    pub sign: Sign,
    pub magnitude: BigUInt,
}

impl View for BigInt {
    type V = int;

    /// The integer that the sign and the magnitude stand for.
    open spec fn view(&self) -> int {
        signed_value(self.sign, self.magnitude@)
    }
}

/// The integer with the given sign and absolute value.
pub open spec fn signed_value(sign: Sign, magnitude: nat) -> int {
    if sign == Sign::Minus {
        -(magnitude as int)
    } else {
        magnitude as int
    }
}

/// The sign that a canonical value has where its parts were computed with
/// the sign `sign` and the absolute value `magnitude`.
pub open spec fn canonical_sign(sign: Sign, magnitude: nat) -> Sign {
    if magnitude == 0 {
        Sign::Plus
    } else {
        sign
    }
}

/// The other sign.
pub open spec fn opposite(sign: Sign) -> Sign {
    match sign {
        Sign::Plus => Sign::Minus,
        Sign::Minus => Sign::Plus,
    }
}

/// The sign of a product or a quotient of values with the given signs.
pub open spec fn product_sign(a: Sign, b: Sign) -> Sign {
    if a == b {
        Sign::Plus
    } else {
        Sign::Minus
    }
}

impl Clone for BigInt {
    fn clone(&self) -> (r: Self)
        ensures
            r.sign == self.sign,
            r.magnitude.limbs@ == self.magnitude.limbs@,
    {
        BigInt { sign: self.sign, magnitude: self.magnitude.clone() }
    }
}

impl BigInt {
    /// The magnitude is in canonical form and zero carries the sign `Plus`.
    pub open spec fn is_canonical(&self) -> bool {
        self.magnitude.is_normalized() && (self.magnitude@ == 0 ==> self.sign == Sign::Plus)
    }

    /// Zero.
    pub fn new() -> (r: Self)
        ensures
            r@ == 0,
            r.is_canonical(),
    {
        BigInt { sign: Sign::Plus, magnitude: BigUInt::new() }
    }

    /// The value of an unsigned machine integer.
    pub fn from_u32(value: u32) -> (r: Self)
        ensures
            r@ == value,
            r.is_canonical(),
    {
        BigInt { sign: Sign::Plus, magnitude: BigUInt::from_u32(value) }.normalize()
    }

    /// The value of a signed machine integer.
    pub fn from_i32(value: i32) -> (r: Self)
        ensures
            r@ == value,
            r.is_canonical(),
    {
        if value < 0 {
            let absolute = (-(value as i64)) as u32;
            BigInt { sign: Sign::Minus, magnitude: BigUInt::from_u32(absolute) }.normalize()
        } else {
            BigInt { sign: Sign::Plus, magnitude: BigUInt::from_u32(value as u32) }.normalize()
        }
    }

    /// The value with the opposite sign. Zero is handed back as it is.
    pub fn negate(&self) -> (r: Self)
        ensures
            r@ == -self@,
            r.magnitude.limbs@ == self.magnitude.limbs@,
            r.sign == if self.magnitude@ == 0 {
                self.sign
            } else {
                opposite(self.sign)
            },
            self.is_canonical() ==> r.is_canonical(),
    {
        if self.magnitude.is_zero() {
            return self.clone();
        }
        let new_sign = match self.sign {
            Sign::Plus => Sign::Minus,
            Sign::Minus => Sign::Plus,
        };
        BigInt { sign: new_sign, magnitude: self.magnitude.clone() }
    }

    /// The same value with the sign `Plus` where the magnitude is zero.
    pub(crate) fn normalize(self) -> (r: Self)
        ensures
            r@ == self@,
            r.magnitude == self.magnitude,
            r.sign == canonical_sign(self.sign, self.magnitude@),
            self.magnitude.is_normalized() ==> r.is_canonical(),
    {
        let mut this = self;
        if this.magnitude.is_zero() {
            this.sign = Sign::Plus;
        }
        this
    }

    /// The sum of two signed integers.
    pub fn add(&self, other: &Self) -> (r: Self)
        ensures
            r@ == self@ + other@,
            r.is_canonical(),
    {
        if self.sign == other.sign {
            let new_magnitude = self.magnitude.add(&other.magnitude);
            return BigInt { sign: self.sign, magnitude: new_magnitude }.normalize();
        }
        if self.magnitude >= other.magnitude {
            let new_magnitude = self.magnitude.sub(&other.magnitude);
            BigInt { sign: self.sign, magnitude: new_magnitude }.normalize()
        } else {
            let new_magnitude = other.magnitude.sub(&self.magnitude);
            BigInt { sign: other.sign, magnitude: new_magnitude }.normalize()
        }
    }

    /// The difference of two signed integers.
    pub fn sub(&self, other: &Self) -> (r: Self)
        ensures
            r@ == self@ - other@,
            r.is_canonical(),
    {
        self.add(&other.negate())
    }

    /// The product of two signed integers.
    pub fn mul(&self, other: &Self) -> (r: Self)
        ensures
            r@ == self@ * other@,
            r.is_canonical(),
    {
        let new_magnitude = self.magnitude.mul(&other.magnitude);
        let new_sign = if self.sign == other.sign {
            Sign::Plus
        } else {
            Sign::Minus
        };
        proof {
            let a = self.magnitude@ as int;
            let b = other.magnitude@ as int;
            assert((-a) * (-b) == a * b) by (nonlinear_arith);
            assert((-a) * b == -(a * b)) by (nonlinear_arith);
            assert(a * (-b) == -(a * b)) by (nonlinear_arith);
        }
        BigInt { sign: new_sign, magnitude: new_magnitude }.normalize()
    }

    /// The quotient and the remainder of a signed integer divided by
    /// another that is not zero. The quotient is rounded toward zero, so the
    /// remainder has the sign of the dividend.
    pub fn div(&self, other: &Self) -> (r: (Self, Self))
        requires
            other@ != 0,
        ensures
            r.0.magnitude@ == self.magnitude@ / other.magnitude@,
            r.1.magnitude@ == self.magnitude@ % other.magnitude@,
            r.0.sign == canonical_sign(product_sign(self.sign, other.sign), r.0.magnitude@),
            r.1.sign == canonical_sign(self.sign, r.1.magnitude@),
            r.0.is_canonical(),
            r.1.is_canonical(),
            self@ == other@ * r.0@ + r.1@,
    {
        let (quotient_magnitude, remainder_magnitude) = self.magnitude.div(&other.magnitude);
        let quotient_sign = if self.sign == other.sign {
            Sign::Plus
        } else {
            Sign::Minus
        };
        proof {
            let a = self.magnitude@ as int;
            let b = other.magnitude@ as int;
            let q = quotient_magnitude@ as int;
            let m = remainder_magnitude@ as int;
            vstd::arithmetic::div_mod::lemma_fundamental_div_mod(a, b);
            assert(a == b * q + m);
            assert((-b) * (-q) == b * q) by (nonlinear_arith);
            assert((-b) * q == -(b * q)) by (nonlinear_arith);
            assert(b * (-q) == -(b * q)) by (nonlinear_arith);
        }
        (
            BigInt { sign: quotient_sign, magnitude: quotient_magnitude }.normalize(),
            BigInt { sign: self.sign, magnitude: remainder_magnitude }.normalize(),
        )
    }
}

} // verus!
