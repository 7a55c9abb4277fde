//! The algebraic laws of the arithmetic, each stated of whatever the
//! operations return and proved from their contracts.

use vstd::prelude::*;
use crate::big_int::BigInt;
use crate::big_uint::BigUInt;
use crate::decimal::{is_canonical_decimal, lemma_digits_of_value, lemma_value_of_digits, ParseBigIntError};
use crate::limbs::lemma_normalized_unique;

verus! {

/// Addition commutes: `a.add(&b)` and `b.add(&a)` are the same number, limb
/// for limb.
pub proof fn law_add_commutative(a: BigUInt, b: BigUInt, ab: BigUInt, ba: BigUInt)
    requires
        call_ensures(BigUInt::add, (&a, &b), ab),
        call_ensures(BigUInt::add, (&b, &a), ba),
    ensures
        ab@ == ba@,
        ab.limbs@ == ba.limbs@,
{
    lemma_normalized_unique(ab.limbs@, ba.limbs@);
}

/// Addition is associative: `a.add(&b).add(&c)` and `a.add(&b.add(&c))` are
/// the same number, limb for limb.
pub proof fn law_add_associative(
    a: BigUInt,
    b: BigUInt,
    c: BigUInt,
    ab: BigUInt,
    bc: BigUInt,
    left: BigUInt,
    right: BigUInt,
)
    requires
        call_ensures(BigUInt::add, (&a, &b), ab),
        call_ensures(BigUInt::add, (&ab, &c), left),
        call_ensures(BigUInt::add, (&b, &c), bc),
        call_ensures(BigUInt::add, (&a, &bc), right),
    ensures
        left@ == right@,
        left.limbs@ == right.limbs@,
{
    lemma_normalized_unique(left.limbs@, right.limbs@);
}

/// Zero is the identity of addition: `a.add(&BigUInt::new())` is `a`, in
/// canonical form.
pub proof fn law_add_zero(a: BigUInt, zero: BigUInt, sum: BigUInt)
    requires
        call_ensures(BigUInt::new, (), zero),
        call_ensures(BigUInt::add, (&a, &zero), sum),
    ensures
        sum@ == a@,
        a.is_normalized() ==> sum.limbs@ == a.limbs@,
{
    if a.is_normalized() {
        lemma_normalized_unique(sum.limbs@, a.limbs@);
    }
}

/// Subtraction undoes addition: for `a` no smaller than `b`,
/// `a.sub(&b).add(&b)` is `a`, in canonical form.
pub proof fn law_sub_then_add(a: BigUInt, b: BigUInt, difference: BigUInt, sum: BigUInt)
    requires
        a@ >= b@,
        call_ensures(BigUInt::sub, (&a, &b), difference),
        call_ensures(BigUInt::add, (&difference, &b), sum),
    ensures
        sum@ == a@,
        a.is_normalized() ==> sum.limbs@ == a.limbs@,
{
    if a.is_normalized() {
        lemma_normalized_unique(sum.limbs@, a.limbs@);
    }
}

/// The division identity: for `b` not zero and `(q, r)` what `a.div(&b)`
/// returns, `b.mul(&q).add(&r)` is `a`, and `r` is smaller than `b`.
pub proof fn law_division_identity(
    a: BigUInt,
    b: BigUInt,
    q: BigUInt,
    r: BigUInt,
    product: BigUInt,
    sum: BigUInt,
)
    requires
        b@ != 0,
        call_ensures(BigUInt::div, (&a, &b), (q, r)),
        call_ensures(BigUInt::mul, (&b, &q), product),
        call_ensures(BigUInt::add, (&product, &r), sum),
    ensures
        sum@ == a@,
        r@ < b@,
        a.is_normalized() ==> sum.limbs@ == a.limbs@,
{
    vstd::arithmetic::div_mod::lemma_fundamental_div_mod(a@ as int, b@ as int);
    vstd::arithmetic::div_mod::lemma_mod_pos_bound(a@ as int, b@ as int);
    if a.is_normalized() {
        lemma_normalized_unique(sum.limbs@, a.limbs@);
    }
}

/// Division undoes multiplication: for `b` not zero, `q.mul(&b).div(&b)` is
/// `q` with the remainder zero.
pub proof fn law_mul_then_div(
    q: BigUInt,
    b: BigUInt,
    product: BigUInt,
    quotient: BigUInt,
    remainder: BigUInt,
)
    requires
        b@ != 0,
        call_ensures(BigUInt::mul, (&q, &b), product),
        call_ensures(BigUInt::div, (&product, &b), (quotient, remainder)),
    ensures
        quotient@ == q@,
        remainder@ == 0,
        remainder.limbs@ == seq![0u32],
        q.is_normalized() ==> quotient.limbs@ == q.limbs@,
{
    vstd::arithmetic::div_mod::lemma_fundamental_div_mod_converse(
        (q@ * b@) as int,
        b@ as int,
        q@ as int,
        0,
    );
    crate::limbs::lemma_value_single(0u32);
    lemma_normalized_unique(remainder.limbs@, seq![0u32]);
    if q.is_normalized() {
        lemma_normalized_unique(quotient.limbs@, q.limbs@);
    }
}

/// Writing undoes reading: canonical decimal text is accepted by
/// `BigUInt::from_str`, and `to_string` of what it returns is the text again.
pub proof fn law_parse_then_format(
    s: &str,
    parsed: Result<BigUInt, ParseBigIntError>,
    text: String,
)
    requires
        is_canonical_decimal(s@),
        call_ensures(BigUInt::from_str, (s,), parsed),
        parsed is Ok ==> call_ensures(BigUInt::to_string, (&parsed->Ok_0,), text),
    ensures
        parsed is Ok,
        text@ == s@,
{
    lemma_digits_of_value(s@);
}

/// Reading undoes writing: the text that `to_string` returns is accepted by
/// `BigUInt::from_str`, which gives the number back in canonical form.
pub proof fn law_format_then_parse(
    a: BigUInt,
    text: String,
    s: &str,
    parsed: Result<BigUInt, ParseBigIntError>,
)
    requires
        call_ensures(BigUInt::to_string, (&a,), text),
        s@ == text@,
        call_ensures(BigUInt::from_str, (s,), parsed),
    ensures
        parsed matches Ok(v) && v@ == a@ && (a.is_normalized() ==> v.limbs@ == a.limbs@),
{
    crate::decimal::lemma_digits_are_canonical(a@);
    lemma_value_of_digits(a@);
    if a.is_normalized() {
        lemma_normalized_unique(parsed->Ok_0.limbs@, a.limbs@);
    }
}

/// Negating twice gives the value back, and zero negated is zero with the
/// sign `Plus` where it had it before.
pub proof fn law_negate_twice(a: BigInt, once: BigInt, twice: BigInt)
    requires
        call_ensures(BigInt::negate, (&a,), once),
        call_ensures(BigInt::negate, (&once,), twice),
    ensures
        twice@ == a@,
        twice.sign == a.sign,
        twice.magnitude.limbs@ == a.magnitude.limbs@,
        a@ == 0 ==> once@ == 0 && once.sign == a.sign,
{
}

/// Signed subtraction undoes signed addition, whatever the signs:
/// `a.add(&b).sub(&b)` is the number `a`.
pub proof fn law_signed_add_then_sub(a: BigInt, b: BigInt, sum: BigInt, back: BigInt)
    requires
        call_ensures(BigInt::add, (&a, &b), sum),
        call_ensures(BigInt::sub, (&sum, &b), back),
    ensures
        back@ == a@,
        back.is_canonical(),
{
}

} // verus!
