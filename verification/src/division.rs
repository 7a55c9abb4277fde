//! Division with remainder: by a single limb, and by a magnitude of any
//! length through estimated and corrected quotient digits.

use vstd::prelude::*;
use vstd::arithmetic::div_mod::lemma_fundamental_div_mod_converse;
use crate::big_uint::{limb_or_zero, BigUInt};
use crate::limbs::{
    base, base_pow, lemma_base_pow_add, lemma_base_pow_monotonic, lemma_base_pow_positive,
    lemma_top_two_limbs, lemma_value_bound, lemma_value_push, lemma_value_single,
    lemma_value_top_limb, lemma_value_update_zero, lemma_value_zeros, limb_at, limbs_value,
    low_limbs, zeros,
};

verus! {

/// One division step on the limb at the bottom of `upper`: the value of the
/// whole is the new quotient times `d` plus the new remainder.
proof fn lemma_div_single_step(upper: nat, limb: nat, d: nat, q_upper: nat, r: nat, candidate: nat)
    requires
        d > 0,
        upper == q_upper * d + r,
        candidate == r * base() + limb,
    ensures
        limb + base() * upper == (candidate / d + base() * q_upper) * d + candidate % d,
{
    let q = candidate / d;
    let m = candidate % d;
    assert(candidate == d * q + m) by {
        vstd::arithmetic::div_mod::lemma_fundamental_div_mod(candidate as int, d as int);
    }
    assert(limb + base() * (q_upper * d + r) == (q + base() * q_upper) * d + m)
        by (nonlinear_arith)
        requires
            r * base() + limb == d * q + m,
    ;
}

/// The quotient digit estimated from the top of the remainder is never too
/// small. `rem` is the remainder, `probe` its two limbs under the top of
/// the shifted divisor and `low` all that lies under them; `unit` is the
/// weight of the lower probe limb, `top` the divisor's top limb and
/// `shifted` the divisor moved up to the current quotient position.
proof fn lemma_estimate_covers(
    rem: nat,
    probe: nat,
    low: nat,
    unit: nat,
    top: nat,
    shifted: nat,
    digit: nat,
)
    requires
        top >= 1,
        rem == probe * unit + low,
        low < unit,
        shifted >= top * unit,
        rem < base() * shifted,
        digit == if probe / top >= base() {
            (base() - 1) as nat
        } else {
            probe / top
        },
    ensures
        rem < (digit + 1) * shifted,
{
    if probe / top < base() {
        let q = probe / top;
        assert(probe == top * q + probe % top && probe % top < top) by {
            vstd::arithmetic::div_mod::lemma_fundamental_div_mod(probe as int, top as int);
            vstd::arithmetic::div_mod::lemma_mod_pos_bound(probe as int, top as int);
        }
        assert(top * (q + 1) == top * q + top) by (nonlinear_arith);
        assert((probe + 1) * unit <= (q + 1) * (top * unit)) by (nonlinear_arith)
            requires
                probe + 1 <= top * (q + 1),
        ;
        assert((q + 1) * (top * unit) <= (q + 1) * shifted) by (nonlinear_arith)
            requires
                top * unit <= shifted,
        ;
        assert(probe * unit + low < (probe + 1) * unit) by (nonlinear_arith)
            requires
                low < unit,
        ;
    }
}

/// Taking `digit` times the shifted divisor off the remainder and writing
/// `digit` into the quotient keeps the dividend equal to divisor times
/// quotient plus remainder, and brings the remainder under the shifted
/// divisor.
proof fn lemma_div_step(
    a: nat,
    b: nat,
    q: nat,
    rem: nat,
    digit: nat,
    weight: nat,
    trial: nat,
)
    requires
        a == b * q + rem,
        trial == (b * digit) * weight,
        trial <= rem,
        rem < (digit + 1) * (b * weight),
    ensures
        a == b * (q + digit * weight) + (rem - trial),
        rem - trial < b * weight,
{
    assert(b * (q + digit * weight) == b * q + (b * digit) * weight) by (nonlinear_arith);
    assert((digit + 1) * (b * weight) == (b * digit) * weight + b * weight) by (nonlinear_arith);
}

/// The two limbs of `s` at `k` and `k - 1`, read as one number.
pub open spec fn probe_at(s: Seq<u32>, k: int) -> nat {
    (limb_at(s, k) as nat) * base() + (limb_at(s, k - 1) as nat)
}

/// The probe divided by the divisor's top limb, held to a single limb.
pub open spec fn estimated_digit(s: Seq<u32>, k: int, top: u32) -> nat {
    if probe_at(s, k) / (top as nat) >= base() {
        (base() - 1) as nat
    } else {
        probe_at(s, k) / (top as nat)
    }
}

/// A first guess at the quotient digit: the remainder's limbs at `k` and
/// `k - 1` divided by the divisor's top limb. A guess that would not fit in
/// one limb is replaced by the largest limb.
fn estimate_digit(remainder: &BigUInt, top: u32, k: usize) -> (digit: u32)
    requires
        top != 0,
        k >= 1,
    ensures
        digit == estimated_digit(remainder.limbs@, k as int, top),
{
    let hi = limb_or_zero(&remainder.limbs, k);
    let lo = limb_or_zero(&remainder.limbs, k - 1);
    let probe = BigUInt { limbs: vec![lo, hi] };
    proof {
        assert(probe.limbs@ =~= seq![lo].push(hi));
        lemma_value_push(seq![lo], hi);
        lemma_value_single(lo);
        assert(base_pow(1) == base() * base_pow(0));
        assert(base_pow(0) == 1);
        assert(probe@ == probe_at(remainder.limbs@, k as int));
    }
    let (estimate, _) = probe.div_single(top);
    if estimate.limbs.len() > 1 {
        proof {
            let n = estimate.limbs@.len();
            lemma_value_top_limb(estimate.limbs@);
            lemma_base_pow_monotonic(1, (n - 1) as nat);
            assert(base_pow(1) == base() * base_pow(0));
            assert(base_pow(0) == 1);
            assert((estimate.limbs@.last() as nat) * base_pow((n - 1) as nat) >= base_pow(
                (n - 1) as nat,
            )) by (nonlinear_arith)
                requires
                    estimate.limbs@.last() as nat >= 1,
            ;
        }
        u32::MAX
    } else {
        proof {
            assert(estimate.limbs@ =~= seq![estimate.limbs@[0]]);
            lemma_value_single(estimate.limbs@[0]);
        }
        estimate.limbs[0]
    }
}

impl BigUInt {
    /// The quotient and the remainder of a magnitude divided by a single
    /// limb that is not zero.
    pub fn div_single(&self, d: u32) -> (r: (Self, u32))
        requires
            d != 0,
        ensures
            r.0@ == self@ / (d as nat),
            r.1 == self@ % (d as nat),
            r.0.is_normalized(),
    {
        let len = self.limbs.len();
        let mut quotient: Vec<u32> = vec![0u32; len];
        let mut rem: u32 = 0;
        let mut i: usize = len;
        proof {
            assert(limbs_value(self.limbs@.skip(len as int)) == 0);
            assert(limbs_value(quotient@.skip(len as int)) == 0);
            assert(0 * (d as nat) == 0);
        }
        while i > 0
            invariant
                i <= len,
                len == self.limbs@.len(),
                quotient@.len() == len,
                d != 0,
                rem < d,
                limbs_value(self.limbs@.skip(i as int)) == limbs_value(quotient@.skip(i as int)) * d
                    + rem,
            decreases i,
        {
            i -= 1;
            let limb = self.limbs[i];
            let candidate: u64 = (rem as u64) * 0x1_0000_0000 + (limb as u64);
            let q_limb: u64 = candidate / (d as u64);
            let ghost upper = self.limbs@.skip(i + 1);
            let ghost q_upper = quotient@.skip(i + 1);
            let ghost rem_in = rem;
            proof {
                lemma_div_single_step(
                    limbs_value(upper),
                    limb as nat,
                    d as nat,
                    limbs_value(q_upper),
                    rem_in as nat,
                    candidate as nat,
                );
                assert(candidate / (d as u64) < 0x1_0000_0000) by (nonlinear_arith)
                    requires
                        candidate < (d as u64) * 0x1_0000_0000,
                        d > 0,
                ;
            }
            rem = (candidate % (d as u64)) as u32;
            quotient.set(i, q_limb as u32);
            proof {
                assert(self.limbs@.skip(i as int).drop_first() =~= upper);
                assert(quotient@.skip(i as int).drop_first() =~= q_upper);
                assert(quotient@.skip(i as int)[0] == q_limb);
                assert(self.limbs@.skip(i as int)[0] == limb);
            }
        }
        proof {
            assert(self.limbs@.skip(0) =~= self.limbs@);
            assert(quotient@.skip(0) =~= quotient@);
            lemma_fundamental_div_mod_converse(
                self@ as int,
                d as int,
                limbs_value(quotient@) as int,
                rem as int,
            );
        }
        (BigUInt { limbs: quotient }.truncate(), rem)
    }

    /// The quotient and the remainder of a magnitude divided by another
    /// that is not zero.
    ///
    /// Each quotient digit, from the top down, is first guessed from the two
    /// top limbs of the running remainder and the top limb of the divisor,
    /// then lowered while the divisor times the guess, moved up to the
    /// digit's position, is more than the remainder.
    pub fn div(&self, other: &Self) -> (r: (Self, Self))
        requires
            other@ != 0,
        ensures
            r.0@ == self@ / other@,
            r.1@ == self@ % other@,
            r.0.is_normalized(),
            r.1.is_normalized(),
    {
        let dividend = self.truncate();
        let divisor = other.truncate();
        let n = dividend.limbs.len();
        let m = divisor.limbs.len();
        proof {
            lemma_value_bound(dividend.limbs@);
            lemma_value_bound(divisor.limbs@);
            lemma_value_top_limb(divisor.limbs@);
            lemma_value_single(divisor.limbs@[0]);
            assert(m == 1 ==> divisor.limbs@ =~= seq![divisor.limbs@[0]]);
            assert(divisor.limbs@.last() != 0);
            let w = base_pow((m - 1) as nat);
            assert((divisor.limbs@.last() as nat) * w >= w) by (nonlinear_arith)
                requires
                    divisor.limbs@.last() as nat >= 1,
            ;
        }
        if n < m {
            proof {
                lemma_base_pow_monotonic(n as nat, (m - 1) as nat);
                lemma_fundamental_div_mod_converse(self@ as int, other@ as int, 0, self@ as int);
            }
            return (BigUInt::new(), dividend);
        }
        let top = divisor.limbs[m - 1];
        let digits: usize = n - m + 1;
        let mut quotient: Vec<u32> = vec![0u32; digits];
        let mut remainder = dividend.clone();
        let mut i: usize = digits;
        proof {
            assert(quotient@ =~= zeros((n - m + 1) as nat));
            lemma_value_zeros((n - m + 1) as nat);
            lemma_base_pow_add((m - 1) as nat, (n - m + 1) as nat);
            let w = base_pow((m - 1) as nat);
            let v = base_pow((n - m + 1) as nat);
            assert(w * v <= divisor@ * v) by (nonlinear_arith)
                requires
                    w <= divisor@,
            ;
            assert(divisor@ * 0 == 0);
        }
        while i > 0
            invariant
                i <= n - m + 1,
                m >= 1,
                n >= m,
                m == divisor.limbs@.len(),
                top == divisor.limbs@[m - 1],
                top != 0,
                divisor@ >= (top as nat) * base_pow((m - 1) as nat),
                divisor@ < base_pow(m as nat),
                quotient@.len() == n - m + 1,
                forall|j: int| 0 <= j < i ==> quotient@[j] == 0,
                dividend@ == divisor@ * limbs_value(quotient@) + remainder@,
                remainder@ < divisor@ * base_pow(i as nat),
            decreases i,
        {
            i -= 1;
            let ghost weight = base_pow(i as nat);
            let ghost shifted = divisor@ * weight;
            let mut digit = estimate_digit(&remainder, top, i + m);
            let mut trial = divisor.mul_single(digit).shift_limbs(i);
            proof {
                let k = (i + m) as nat;
                let unit = base_pow((k - 1) as nat);
                lemma_base_pow_add(m as nat, (i + 1) as nat);
                lemma_base_pow_add((m - 1) as nat, i as nat);
                assert(base_pow((i + 1) as nat) == base() * weight);
                assert(divisor@ * (base() * weight) == base() * shifted) by (nonlinear_arith)
                    requires
                        shifted == divisor@ * weight,
                ;
                lemma_base_pow_positive((i + 1) as nat);
                assert(divisor@ * base_pow((i + 1) as nat) < base_pow(m as nat) * base_pow(
                    (i + 1) as nat,
                )) by (nonlinear_arith)
                    requires
                        divisor@ < base_pow(m as nat),
                        base_pow((i + 1) as nat) >= 1,
                ;
                lemma_top_two_limbs(remainder.limbs@, k);
                assert(((top as nat) * base_pow((m - 1) as nat)) * weight <= divisor@ * weight)
                    by (nonlinear_arith)
                    requires
                        (top as nat) * base_pow((m - 1) as nat) <= divisor@,
                ;
                assert(((top as nat) * base_pow((m - 1) as nat)) * weight == (top as nat) * unit)
                    by (nonlinear_arith)
                    requires
                        unit == base_pow((m - 1) as nat) * weight,
                ;
                lemma_estimate_covers(
                    remainder@,
                    probe_at(remainder.limbs@, k as int),
                    limbs_value(low_limbs(remainder.limbs@, (k - 1) as nat)),
                    unit,
                    top as nat,
                    shifted,
                    digit as nat,
                );
            }
            while trial > remainder
                invariant
                    trial@ == (divisor@ * digit) * weight,
                    shifted == divisor@ * weight,
                    weight == base_pow(i as nat),
                    remainder@ < (digit + 1) * shifted,
                decreases digit,
            {
                proof {
                    assert((divisor@ * 0) * weight == 0) by (nonlinear_arith);
                    assert((divisor@ * digit) * weight == digit * shifted) by (nonlinear_arith)
                        requires
                            shifted == divisor@ * weight,
                    ;
                }
                digit -= 1;
                trial = divisor.mul_single(digit).shift_limbs(i);
            }
            proof {
                lemma_value_update_zero(quotient@, i as int, digit);
                lemma_div_step(
                    dividend@,
                    divisor@,
                    limbs_value(quotient@),
                    remainder@,
                    digit as nat,
                    weight,
                    trial@,
                );
            }
            quotient.set(i, digit);
            remainder = remainder.sub(&trial);
        }
        proof {
            assert(base_pow(0) == 1);
            assert(divisor@ * 1 == divisor@);
            assert(divisor@ * limbs_value(quotient@) == limbs_value(quotient@) * divisor@)
                by (nonlinear_arith);
            lemma_fundamental_div_mod_converse(
                self@ as int,
                other@ as int,
                limbs_value(quotient@) as int,
                remainder@ as int,
            );
        }
        (BigUInt { limbs: quotient }.truncate(), remainder.truncate())
    }
}

} // verus!
