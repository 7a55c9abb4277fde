//! The unsigned magnitude: a little-endian vector of 32-bit limbs.

use vstd::prelude::*;
pub use crate::decimal::ParseBigIntError;
use crate::limbs::{
    all_zero, base, base_pow, is_normalized, lemma_low_limbs_none, lemma_low_limbs_step,
    lemma_significant_len_unique, lemma_trimmed, lemma_value_bound, lemma_value_concat,
    lemma_value_push, lemma_value_single, lemma_value_zero_iff, lemma_value_zeros, limb_at,
    limbs_value, low_limbs, significant_len, trimmed, zeros,
};

verus! {

/// An unsigned integer of unbounded size, least significant limb first.
///
/// Any limb vector is a valid magnitude: superfluous zero limbs on top, and
/// even an empty vector, stand for the same number as the canonical form.
/// Every arithmetic operation returns its result in canonical form.
#[derive(Debug)]
pub struct BigUInt {
    pub limbs: Vec<u32>,
}

impl View for BigUInt {
    type V = nat;

    /// The number that the limbs stand for.
    open spec fn view(&self) -> nat {
        limbs_value(self.limbs@)
    }
}

/// The low 32 bits of a double-width accumulator.
pub(crate) fn low_half(x: u64) -> (r: u32)
    ensures
        r == x % 0x1_0000_0000,
{
    assert((x & 0xffff_ffff) == x % 0x1_0000_0000) by (bit_vector);
    (x & 0xffff_ffff) as u32
}

/// The high 32 bits of a double-width accumulator.
pub(crate) fn high_half(x: u64) -> (r: u32)
    ensures
        r == x / 0x1_0000_0000,
{
    assert((x >> 32) == x / 0x1_0000_0000) by (bit_vector);
    assert((x >> 32) <= 0xffff_ffff) by (bit_vector);
    (x >> 32) as u32
}

/// The limb at index `i`, read as zero above the top of the vector.
pub(crate) fn limb_or_zero(limbs: &Vec<u32>, i: usize) -> (r: u32)
    ensures
        r == limb_at(limbs@, i as int),
{
    if i < limbs.len() {
        limbs[i]
    } else {
        0
    }
}

impl Clone for BigUInt {
    fn clone(&self) -> (r: Self)
        ensures
            r.limbs@ == self.limbs@,
    {
        let limbs = self.limbs.clone();
        assert(limbs@ =~= self.limbs@);
        BigUInt { limbs }
    }
}

impl BigUInt {
    /// The limbs are in canonical form.
    pub open spec fn is_normalized(&self) -> bool {
        is_normalized(self.limbs@)
    }

    /// The canonical zero: a single zero limb.
    pub fn new() -> (r: Self)
        ensures
            r.limbs@ == seq![0u32],
            r@ == 0,
            r.is_normalized(),
    {
        let limbs = vec![0u32];
        proof {
            assert(limbs@ =~= seq![0u32]);
            lemma_value_single(0u32);
        }
        BigUInt { limbs }
    }

    /// Whether the magnitude is zero, whatever its stored length.
    pub fn is_zero(&self) -> (r: bool)
        ensures
            r == (self@ == 0),
            r == all_zero(self.limbs@),
    {
        proof {
            lemma_value_zero_iff(self.limbs@);
        }
        let mut i: usize = 0;
        while i < self.limbs.len()
            invariant
                i <= self.limbs.len(),
                forall|j: int| 0 <= j < i ==> self.limbs@[j] == 0,
            decreases self.limbs.len() - i,
        {
            if self.limbs[i] != 0 {
                proof {
                    lemma_value_zero_iff(self.limbs@);
                }
                return false;
            }
            i += 1;
        }
        true
    }

    /// The number of limbs up to and including the highest one that is not
    /// zero.
    pub fn effective_len(&self) -> (n: usize)
        ensures
            n == significant_len(self.limbs@),
    {
        let mut n = self.limbs.len();
        while n > 0 && self.limbs[n - 1] == 0
            invariant
                n <= self.limbs@.len(),
                forall|j: int| n <= j < self.limbs@.len() ==> self.limbs@[j] == 0,
            decreases n,
        {
            n -= 1;
        }
        proof {
            lemma_significant_len_unique(self.limbs@, n as nat);
        }
        n
    }

    /// The magnitude with the single limb `n`.
    pub fn from_u32(n: u32) -> (r: Self)
        ensures
            r.limbs@ == seq![n],
            r@ == n,
            r.is_normalized(),
    {
        let limbs = vec![n];
        proof {
            assert(limbs@ =~= seq![n]);
            lemma_value_single(n);
        }
        BigUInt { limbs }
    }

    /// The same number in canonical form: zero limbs are taken off the top
    /// down to a single limb, and an empty vector becomes the single zero limb.
    pub fn truncate(&self) -> (r: Self)
        ensures
            r.limbs@ == trimmed(self.limbs@),
            r@ == self@,
            r.is_normalized(),
    {
        let mut result = self.limbs.clone();
        assert(result@ =~= self.limbs@);
        while result.len() > 1 && result[result.len() - 1] == 0
            invariant
                trimmed(result@) == trimmed(self.limbs@),
            decreases result.len(),
        {
            result.pop();
        }
        if result.len() == 0 {
            result.push(0);
        }
        proof {
            lemma_trimmed(self.limbs@);
        }
        BigUInt { limbs: result }
    }

    /// The magnitude moved up by `n` whole limbs. A zero magnitude is handed
    /// back as it is.
    pub fn shift_limbs(&self, n: usize) -> (r: Self)
        ensures
            r@ == self@ * base_pow(n as nat),
            r.limbs@ == if self@ == 0 {
                self.limbs@
            } else {
                zeros(n as nat) + self.limbs@
            },
            self.is_normalized() ==> r.is_normalized(),
    {
        if self.is_zero() {
            let limbs = self.limbs.clone();
            assert(limbs@ =~= self.limbs@);
            assert(self@ * base_pow(n as nat) == 0) by (nonlinear_arith)
                requires
                    self@ == 0,
            ;
            return BigUInt { limbs };
        }
        let mut new_limbs = vec![0u32; n];
        assert(new_limbs@ =~= zeros(n as nat));
        new_limbs.extend_from_slice(self.limbs.as_slice());
        proof {
            assert(new_limbs@ =~= zeros(n as nat) + self.limbs@);
            lemma_value_concat(zeros(n as nat), self.limbs@);
            lemma_value_zeros(n as nat);
            assert(base_pow(n as nat) * self@ == self@ * base_pow(n as nat)) by (nonlinear_arith);
            assert(self.limbs@.len() > 0);
            assert(new_limbs@.last() == self.limbs@.last());
        }
        BigUInt { limbs: new_limbs }
    }

    /// The sum of two magnitudes.
    pub fn add(&self, other: &Self) -> (r: Self)
        ensures
            r@ == self@ + other@,
            r.is_normalized(),
    {
        let max_len = if self.limbs.len() > other.limbs.len() {
            self.limbs.len()
        } else {
            other.limbs.len()
        };
        let mut result: Vec<u32> = Vec::new();
        let mut carry: u32 = 0;
        let mut i: usize = 0;
        while i < max_len
            invariant
                i <= max_len,
                result@.len() == i,
                carry <= 1,
                limbs_value(result@) + carry * base_pow(i as nat) == limbs_value(
                    low_limbs(self.limbs@, i as nat),
                ) + limbs_value(low_limbs(other.limbs@, i as nat)),
            decreases max_len - i,
        {
            let a = limb_or_zero(&self.limbs, i);
            let b = limb_or_zero(&other.limbs, i);
            let sum: u64 = (a as u64) + (b as u64) + (carry as u64);
            let ghost before = result@;
            let ghost carry_in = carry;
            carry = high_half(sum);
            let low = low_half(sum);
            result.push(low);
            proof {
                let w = base_pow(i as nat);
                lemma_low_limbs_step(self.limbs@, i as nat);
                lemma_low_limbs_step(other.limbs@, i as nat);
                lemma_value_push(before, low);
                assert(base_pow((i + 1) as nat) == base() * w);
                assert((low as nat) * w + (carry as nat) * (base() * w) == ((a as nat) + (b as nat)
                    + (carry_in as nat)) * w) by (nonlinear_arith)
                    requires
                        (low as nat) + (carry as nat) * base() == (a as nat) + (b as nat) + (
                        carry_in as nat),
                ;
                assert(((a as nat) + (b as nat) + (carry_in as nat)) * w == (a as nat) * w + (
                b as nat) * w + (carry_in as nat) * w) by (nonlinear_arith);
            }
            i += 1;
        }
        if carry > 0 {
            proof {
                lemma_value_push(result@, carry);
            }
            result.push(carry);
        }
        BigUInt { limbs: result }.truncate()
    }

    /// The difference of two magnitudes, the first being no smaller than the
    /// second.
    pub fn sub(&self, other: &Self) -> (r: Self)
        requires
            self@ >= other@,
        ensures
            r@ == self@ - other@,
            r.is_normalized(),
    {
        let max_len = if self.limbs.len() > other.limbs.len() {
            self.limbs.len()
        } else {
            other.limbs.len()
        };
        let mut result: Vec<u32> = Vec::new();
        let mut borrow: u32 = 0;
        let mut i: usize = 0;
        while i < max_len
            invariant
                i <= max_len,
                result@.len() == i,
                borrow <= 1,
                limbs_value(result@) + limbs_value(low_limbs(other.limbs@, i as nat)) == limbs_value(
                    low_limbs(self.limbs@, i as nat),
                ) + borrow * base_pow(i as nat),
            decreases max_len - i,
        {
            let a = limb_or_zero(&self.limbs, i);
            let b = limb_or_zero(&other.limbs, i);
            let mut val_self: u64 = a as u64;
            let val_other: u64 = (b as u64) + (borrow as u64);
            let ghost before = result@;
            let ghost borrow_in = borrow;
            if val_self < val_other {
                val_self += 0x1_0000_0000;
                borrow = 1;
            } else {
                borrow = 0;
            }
            let val: u64 = val_self - val_other;
            let low = low_half(val);
            result.push(low);
            proof {
                let w = base_pow(i as nat);
                lemma_low_limbs_step(self.limbs@, i as nat);
                lemma_low_limbs_step(other.limbs@, i as nat);
                lemma_value_push(before, low);
                assert(base_pow((i + 1) as nat) == base() * w);
                assert(low == val);
                assert((low as nat) * w + (b as nat) * w + (borrow_in as nat) * w == (a as nat) * w
                    + (borrow as nat) * (base() * w)) by (nonlinear_arith)
                    requires
                        (low as nat) + (b as nat) + (borrow_in as nat) == (a as nat) + (
                        borrow as nat) * base(),
                ;
            }
            i += 1;
        }
        proof {
            lemma_value_bound(result@);
            if borrow == 1 {
                assert(borrow * base_pow(i as nat) == base_pow(i as nat)) by (nonlinear_arith)
                    requires
                        borrow == 1,
                ;
            }
            assert(borrow * base_pow(i as nat) == 0) by (nonlinear_arith)
                requires
                    borrow == 0,
            ;
        }
        BigUInt { limbs: result }.truncate()
    }

    /// The product of a magnitude and a single limb.
    pub fn mul_single(&self, k: u32) -> (r: Self)
        ensures
            r@ == self@ * k,
            r.is_normalized(),
    {
        let max_len = self.limbs.len();
        let mut result: Vec<u32> = Vec::new();
        let mut carry: u32 = 0;
        let mut i: usize = 0;
        proof {
            lemma_low_limbs_none(self.limbs@);
            assert(0 * (k as nat) == 0);
        }
        while i < max_len
            invariant
                i <= max_len,
                max_len == self.limbs@.len(),
                result@.len() == i,
                limbs_value(result@) + carry * base_pow(i as nat) == limbs_value(
                    low_limbs(self.limbs@, i as nat),
                ) * k,
            decreases max_len - i,
        {
            let a = self.limbs[i];
            assert((a as u64) * (k as u64) + (carry as u64) <= 0xffff_ffff_ffff_ffff)
                by (nonlinear_arith)
                requires
                    a <= 0xffff_ffff,
                    k <= 0xffff_ffff,
                    carry <= 0xffff_ffff,
            ;
            let product: u64 = (a as u64) * (k as u64) + (carry as u64);
            let ghost before = result@;
            let ghost carry_in = carry;
            carry = high_half(product);
            let low = low_half(product);
            result.push(low);
            proof {
                let w = base_pow(i as nat);
                let lo = limbs_value(low_limbs(self.limbs@, i as nat));
                lemma_low_limbs_step(self.limbs@, i as nat);
                lemma_value_push(before, low);
                assert(base_pow((i + 1) as nat) == base() * w);
                assert((low as nat) * w + (carry as nat) * (base() * w) == ((a as nat) * (k as nat)
                    + (carry_in as nat)) * w) by (nonlinear_arith)
                    requires
                        (low as nat) + (carry as nat) * base() == (a as nat) * (k as nat) + (
                        carry_in as nat),
                ;
                assert((lo + (a as nat) * w) * (k as nat) + (carry_in as nat) * w == lo * (k as nat)
                    + ((a as nat) * (k as nat) + (carry_in as nat)) * w) by (nonlinear_arith);
            }
            i += 1;
        }
        if carry > 0 {
            proof {
                lemma_value_push(result@, carry);
            }
            result.push(carry);
        }
        BigUInt { limbs: result }.truncate()
    }

    /// The product of two magnitudes, by adding up one shifted partial
    /// product for each limb of the second.
    pub fn mul(&self, other: &Self) -> (r: Self)
        ensures
            r@ == self@ * other@,
            r.is_normalized(),
    {
        if self.is_zero() || other.is_zero() {
            assert(self@ * other@ == 0) by (nonlinear_arith)
                requires
                    self@ == 0 || other@ == 0,
            ;
            return BigUInt::new();
        }
        let parts_len = other.limbs.len();
        let mut result = BigUInt::new();
        let mut j: usize = 0;
        proof {
            lemma_low_limbs_none(other.limbs@);
            assert(self@ * 0 == 0);
        }
        while j < parts_len
            invariant
                j <= parts_len,
                parts_len == other.limbs@.len(),
                result@ == self@ * limbs_value(low_limbs(other.limbs@, j as nat)),
                result.is_normalized(),
            decreases parts_len - j,
        {
            let part = self.mul_single(other.limbs[j]);
            let shifted = part.shift_limbs(j);
            let ghost before = result@;
            result = result.add(&shifted);
            proof {
                let w = base_pow(j as nat);
                let lo = limbs_value(low_limbs(other.limbs@, j as nat));
                let d = other.limbs@[j as int] as nat;
                lemma_low_limbs_step(other.limbs@, j as nat);
                assert(self@ * lo + (self@ * d) * w == self@ * (lo + d * w)) by (nonlinear_arith);
            }
            j += 1;
        }
        result
    }
}

} // verus!
