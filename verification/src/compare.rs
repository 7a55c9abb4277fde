//! The total order on magnitudes, and `==` and `<` by value.

use std::cmp::Ordering;
use vstd::prelude::*;
use vstd::std_specs::cmp::{PartialEqSpecImpl, PartialOrdSpecImpl};
use crate::big_int::BigInt;
use crate::big_uint::BigUInt;
use crate::limbs::{
    lemma_same_limbs_same_value, lemma_shorter_is_less, lemma_top_difference_decides,
};

verus! {

/// How the number `a` stands to the number `b`.
pub open spec fn order_of(a: nat, b: nat) -> Ordering {
    if a < b {
        Ordering::Less
    } else if a == b {
        Ordering::Equal
    } else {
        Ordering::Greater
    }
}

impl BigUInt {
    /// Compares two magnitudes by the numbers they stand for. Zero limbs on
    /// top of either operand have no effect on the outcome.
    pub fn cmp(&self, other: &Self) -> (r: Ordering)
        ensures
            r == order_of(self@, other@),
    {
        let n = self.effective_len();
        let m = other.effective_len();
        if n < m {
            proof {
                lemma_shorter_is_less(self.limbs@, other.limbs@);
            }
            return Ordering::Less;
        }
        if n > m {
            proof {
                lemma_shorter_is_less(other.limbs@, self.limbs@);
            }
            return Ordering::Greater;
        }
        proof {
            crate::limbs::lemma_significant_len(self.limbs@);
            crate::limbs::lemma_significant_len(other.limbs@);
        }
        let mut i = n;
        while i > 0
            invariant
                i <= n,
                n == crate::limbs::significant_len(self.limbs@),
                n == crate::limbs::significant_len(other.limbs@),
                n <= self.limbs@.len(),
                n <= other.limbs@.len(),
                forall|j: int| i <= j < n ==> self.limbs@[j] == other.limbs@[j],
            decreases i,
        {
            i -= 1;
            if self.limbs[i] < other.limbs[i] {
                proof {
                    lemma_top_difference_decides(self.limbs@, other.limbs@, i);
                }
                return Ordering::Less;
            }
            if self.limbs[i] > other.limbs[i] {
                proof {
                    lemma_top_difference_decides(other.limbs@, self.limbs@, i);
                }
                return Ordering::Greater;
            }
        }
        proof {
            lemma_same_limbs_same_value(self.limbs@, other.limbs@);
        }
        Ordering::Equal
    }
}

impl PartialEq for BigUInt {
    /// Two magnitudes are equal when they stand for the same number.
    fn eq(&self, other: &Self) -> (r: bool) {
        match self.cmp(other) {
            Ordering::Equal => true,
            _ => false,
        }
    }
}

impl PartialEqSpecImpl for BigUInt {
    open spec fn obeys_eq_spec() -> bool {
        true
    }

    open spec fn eq_spec(&self, other: &Self) -> bool {
        self@ == other@
    }
}

impl Eq for BigUInt {

}

impl PartialOrd for BigUInt {
    fn partial_cmp(&self, other: &Self) -> (r: Option<Ordering>) {
        Some(self.cmp(other))
    }
}

impl PartialOrdSpecImpl for BigUInt {
    open spec fn obeys_partial_cmp_spec() -> bool {
        true
    }

    open spec fn partial_cmp_spec(&self, other: &Self) -> Option<Ordering> {
        Some(order_of(self@, other@))
    }
}

impl PartialEq for BigInt {
    /// Two signed integers are equal when they stand for the same number:
    /// zero equals zero under either sign.
    fn eq(&self, other: &Self) -> (r: bool) {
        if self.magnitude.is_zero() {
            other.magnitude.is_zero()
        } else {
            self.sign == other.sign && self.magnitude == other.magnitude
        }
    }
}

impl PartialEqSpecImpl for BigInt {
    open spec fn obeys_eq_spec() -> bool {
        true
    }

    open spec fn eq_spec(&self, other: &Self) -> bool {
        self@ == other@
    }
}

impl Eq for BigInt {

}

} // verus!
