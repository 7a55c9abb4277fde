//! Decimal text: reading a magnitude from digits and writing it out.

use vstd::prelude::*;
use vstd::string::{StrSliceExecFns, StringExecFns};
use crate::big_int::{canonical_sign, BigInt, Sign};
use crate::big_uint::BigUInt;

verus! {

/// The text handed to a parser is not a number in decimal notation.
#[derive(Debug, Clone, Copy, PartialEq, Eq, Structural)]
pub struct ParseBigIntError;

/// `c` is one of the ten decimal digits.
pub open spec fn is_digit(c: char) -> bool {
    48 <= (c as u32) <= 57
}

/// The number that the digit `c` stands for.
pub open spec fn digit_value(c: char) -> nat {
    ((c as u32) - 48) as nat
}

/// The character that stands for a number below ten.
pub open spec fn digit_char(d: nat) -> char {
    if d == 0 {
        '0'
    } else if d == 1 {
        '1'
    } else if d == 2 {
        '2'
    } else if d == 3 {
        '3'
    } else if d == 4 {
        '4'
    } else if d == 5 {
        '5'
    } else if d == 6 {
        '6'
    } else if d == 7 {
        '7'
    } else if d == 8 {
        '8'
    } else {
        '9'
    }
}

/// `s` is at least one character long and made of decimal digits only.
pub open spec fn is_decimal(s: Seq<char>) -> bool {
    s.len() > 0 && forall|i: int| 0 <= i < s.len() ==> is_digit(#[trigger] s[i])
}

/// `s` is decimal text as a number is written out: with no zero in front,
/// unless it is the single digit zero.
pub open spec fn is_canonical_decimal(s: Seq<char>) -> bool {
    is_decimal(s) && (s.len() == 1 || s[0] != '0')
}

/// The number that a sequence of decimal digits stands for, the most
/// significant digit first.
pub open spec fn decimal_value(s: Seq<char>) -> nat
    decreases s.len(),
{
    if s.len() == 0 {
        0
    } else {
        10 * decimal_value(s.drop_last()) + digit_value(s.last())
    }
}

/// The decimal digits of `n`, the most significant first, with no zero in
/// front; zero is the single digit `0`.
pub open spec fn decimal_digits(n: nat) -> Seq<char>
    decreases n,
{
    if n < 10 {
        seq![digit_char(n)]
    } else {
        decimal_digits(n / 10).push(digit_char(n % 10))
    }
}

/// The digits in `low_first`, which holds the least significant first, as
/// characters with the most significant first.
pub open spec fn digits_high_first(low_first: Seq<u32>) -> Seq<char> {
    Seq::new(low_first.len(), |i: int| digit_char(low_first[low_first.len() - 1 - i] as nat))
}

/// The digits of `n`, or no digits at all where `n` is zero.
pub open spec fn leading_digits(n: nat) -> Seq<char> {
    if n == 0 {
        Seq::empty()
    } else {
        decimal_digits(n)
    }
}

/// `s` begins with a sign character.
pub open spec fn has_sign_prefix(s: Seq<char>) -> bool {
    s.len() > 0 && (s[0] == '-' || s[0] == '+')
}

/// `s` without the sign character that it may begin with.
pub open spec fn unsigned_part(s: Seq<char>) -> Seq<char> {
    if has_sign_prefix(s) {
        s.skip(1)
    } else {
        s
    }
}

/// The sign that the text `s` asks for: `Minus` where it begins with `-`.
pub open spec fn written_sign(s: Seq<char>) -> Sign {
    if s.len() > 0 && s[0] == '-' {
        Sign::Minus
    } else {
        Sign::Plus
    }
}

/// The decimal text of an integer: a `-` in front of the digits of a
/// negative number, and the bare digits otherwise.
pub open spec fn signed_decimal(v: int) -> Seq<char> {
    if v < 0 {
        seq!['-'] + decimal_digits((-v) as nat)
    } else {
        decimal_digits(v as nat)
    }
}

/// A digit character and the number it stands for determine each other.
pub proof fn lemma_digit_char_value(c: char, d: nat)
    ensures
        is_digit(c) ==> digit_char(digit_value(c)) == c && digit_value(c) < 10,
        d < 10 ==> digit_value(digit_char(d)) == d && is_digit(digit_char(d)),
{
}

/// Writing a number out gives canonical decimal text.
pub proof fn lemma_digits_are_canonical(n: nat)
    ensures
        is_canonical_decimal(decimal_digits(n)),
        n >= 10 ==> decimal_digits(n).len() > 1,
    decreases n,
{
    lemma_digit_char_value('0', n % 10);
    if n >= 10 {
        lemma_digits_are_canonical(n / 10);
        let upper = decimal_digits(n / 10);
        let all = upper.push(digit_char(n % 10));
        assert(all[0] == upper[0]);
        assert forall|i: int| 0 <= i < all.len() implies is_digit(#[trigger] all[i]) by {
            if i < upper.len() {
                assert(all[i] == upper[i]);
            }
        }
        if upper.len() == 1 {
            assert(upper =~= seq![digit_char(n / 10)]);
        }
    }
}

/// Reading back what was written out gives the number again.
pub proof fn lemma_value_of_digits(n: nat)
    ensures
        decimal_value(decimal_digits(n)) == n,
    decreases n,
{
    lemma_digit_char_value('0', n % 10);
    if n < 10 {
        let s = seq![digit_char(n)];
        assert(s.drop_last().len() == 0);
        assert(decimal_value(s.drop_last()) == 0);
    } else {
        lemma_value_of_digits(n / 10);
        let upper = decimal_digits(n / 10);
        let c = digit_char(n % 10);
        assert(upper.push(c).drop_last() =~= upper);
    }
}

/// Canonical decimal text of more than one digit stands for a number that
/// is not zero.
pub proof fn lemma_canonical_value_positive(s: Seq<char>)
    requires
        is_decimal(s),
        s[0] != '0',
    ensures
        decimal_value(s) >= 1,
    decreases s.len(),
{
    if s.len() == 1 {
        assert(s.drop_last().len() == 0);
        assert(decimal_value(s.drop_last()) == 0);
        lemma_digit_char_value(s[0], 0);
    } else {
        let upper = s.drop_last();
        assert forall|i: int| 0 <= i < upper.len() implies is_digit(#[trigger] upper[i]) by {
            assert(upper[i] == s[i]);
        }
        lemma_canonical_value_positive(upper);
    }
}

/// Writing out what canonical decimal text stands for gives the text again.
pub proof fn lemma_digits_of_value(s: Seq<char>)
    requires
        is_canonical_decimal(s),
    ensures
        decimal_digits(decimal_value(s)) == s,
    decreases s.len(),
{
    let upper = s.drop_last();
    let c = s.last();
    lemma_digit_char_value(c, 0);
    if s.len() == 1 {
        assert(upper.len() == 0);
        assert(decimal_value(upper) == 0);
        assert(s =~= seq![c]);
    } else {
        assert forall|i: int| 0 <= i < upper.len() implies is_digit(#[trigger] upper[i]) by {
            assert(upper[i] == s[i]);
        }
        assert(upper[0] == s[0]);
        lemma_canonical_value_positive(upper);
        lemma_digits_of_value(upper);
        let n = 10 * decimal_value(upper) + digit_value(c);
        assert(n / 10 == decimal_value(upper) && n % 10 == digit_value(c)) by {
            vstd::arithmetic::div_mod::lemma_fundamental_div_mod_converse(
                n as int,
                10,
                decimal_value(upper) as int,
                digit_value(c) as int,
            );
        }
        assert(s =~= upper.push(c));
    }
}

/// Splitting off the last digit: the digits of `n` are those of `n / 10`,
/// if any, and then the digit `n % 10`.
proof fn lemma_split_last_digit(n: nat)
    ensures
        decimal_digits(n) == leading_digits(n / 10).push(digit_char(n % 10)),
{
    if n < 10 {
        assert(leading_digits(n / 10).push(digit_char(n % 10)) =~= seq![digit_char(n)]);
    }
}

/// The text of a single digit.
fn digit_str(d: u32) -> (r: &'static str)
    requires
        d < 10,
    ensures
        r@ == seq![digit_char(d as nat)],
{
    proof {
        reveal_strlit("0");
        reveal_strlit("1");
        reveal_strlit("2");
        reveal_strlit("3");
        reveal_strlit("4");
        reveal_strlit("5");
        reveal_strlit("6");
        reveal_strlit("7");
        reveal_strlit("8");
        reveal_strlit("9");
    }
    let r = match d {
        0 => "0",
        1 => "1",
        2 => "2",
        3 => "3",
        4 => "4",
        5 => "5",
        6 => "6",
        7 => "7",
        8 => "8",
        _ => "9",
    };
    assert(r@ =~= seq![digit_char(d as nat)]);
    r
}

impl BigUInt {
    /// Reads a magnitude from decimal text: one or more digits and nothing
    /// else. Zeros in front are accepted and change nothing.
    pub fn from_str(s: &str) -> (r: Result<BigUInt, ParseBigIntError>)
        ensures
            r is Ok <==> is_decimal(s@),
            r matches Ok(v) ==> v@ == decimal_value(s@) && v.is_normalized(),
    {
        let mut acc = BigUInt::new();
        let mut seen: bool = false;
        proof {
            assert(s@.take(0).len() == 0);
        }
        for c in it: s.chars()
            invariant
                it.seq() == s@,
                seen == (it.index() > 0),
                forall|j: int| 0 <= j < it.index() ==> is_digit(#[trigger] s@[j]),
                acc@ == decimal_value(s@.take(it.index() as int)),
                acc.is_normalized(),
        {
            let code = c as u32;
            if code < 48 || code > 57 {
                assert(!is_digit(s@[it.index() as int]));
                return Err(ParseBigIntError);
            }
            let ghost before = s@.take(it.index() as int);
            acc = acc.mul_single(10).add(&BigUInt::from_u32(code - 48));
            seen = true;
            proof {
                let now = s@.take(it.index() + 1);
                assert(now.drop_last() =~= before);
                assert(now.last() == c);
            }
        }
        if !seen {
            return Err(ParseBigIntError);
        }
        proof {
            assert(s@.take(s@.len() as int) =~= s@);
        }
        Ok(acc)
    }

    /// Writes the magnitude out in decimal, with no zero in front; zero is
    /// written as `0`.
    pub fn to_string(&self) -> (r: String)
        ensures
            r@ == decimal_digits(self@),
    {
        let mut digits: Vec<u32> = Vec::new();
        let (first_quotient, first_digit) = self.div_single(10);
        let mut current = first_quotient;
        digits.push(first_digit);
        proof {
            lemma_split_last_digit(self@);
            assert(digits_high_first(digits@) =~= seq![digit_char(first_digit as nat)]);
            assert(leading_digits(current@).push(digit_char(first_digit as nat)) =~= leading_digits(
                current@,
            ) + digits_high_first(digits@));
        }
        while !current.is_zero()
            invariant
                decimal_digits(self@) == leading_digits(current@) + digits_high_first(digits@),
                forall|j: int| 0 <= j < digits@.len() ==> digits@[j] < 10,
            decreases current@,
        {
            let ghost before = digits@;
            let ghost number = current@;
            let (quotient, digit) = current.div_single(10);
            digits.push(digit);
            current = quotient;
            proof {
                lemma_split_last_digit(number);
                assert(digits_high_first(digits@) =~= seq![digit_char(digit as nat)]
                    + digits_high_first(before));
                assert(leading_digits(number) + digits_high_first(before) =~= leading_digits(
                    current@,
                ) + digits_high_first(digits@));
            }
        }
        let mut out = String::new();
        let mut j: usize = digits.len();
        while j > 0
            invariant
                j <= digits@.len(),
                forall|k: int| 0 <= k < digits@.len() ==> digits@[k] < 10,
                out@ == digits_high_first(digits@).take(digits@.len() - j),
            decreases j,
        {
            j -= 1;
            let ghost before = out@;
            out.append(digit_str(digits[j]));
            assert(out@ =~= digits_high_first(digits@).take(digits@.len() - j));
        }
        proof {
            assert(digits_high_first(digits@).take(digits@.len() as int) =~= digits_high_first(
                digits@,
            ));
            assert(leading_digits(0) + digits_high_first(digits@) =~= digits_high_first(digits@));
        }
        out
    }
}

impl BigInt {
    /// Reads a signed integer from decimal text: an optional `-` or `+`,
    /// then one or more digits and nothing else.
    pub fn from_str(s: &str) -> (r: Result<BigInt, ParseBigIntError>)
        ensures
            r is Ok <==> is_decimal(unsigned_part(s@)),
            r matches Ok(v) ==> {
                &&& v.magnitude@ == decimal_value(unsigned_part(s@))
                &&& v.sign == canonical_sign(written_sign(s@), v.magnitude@)
                &&& v.is_canonical()
            },
    {
        let len = s.unicode_len();
        if len == 0 {
            return Err(ParseBigIntError);
        }
        let first = s.get_char(0);
        let (sign, magnitude_str) = if first == '-' {
            (Sign::Minus, s.substring_char(1, len))
        } else if first == '+' {
            (Sign::Plus, s.substring_char(1, len))
        } else {
            (Sign::Plus, s)
        };
        assert(magnitude_str@ =~= unsigned_part(s@));
        match BigUInt::from_str(magnitude_str) {
            Ok(magnitude) => Ok(BigInt { sign, magnitude }.normalize()),
            Err(e) => Err(e),
        }
    }

    /// Writes the integer out in decimal, with a `-` in front where it is
    /// negative.
    pub fn to_string(&self) -> (r: String)
        ensures
            r@ == signed_decimal(self@),
    {
        if self.sign == Sign::Minus && !self.magnitude.is_zero() {
            proof {
                reveal_strlit("-");
                assert("-"@ =~= seq!['-']);
            }
            let mut out = String::from_str("-");
            out.append(self.magnitude.to_string().as_str());
            out
        } else {
            self.magnitude.to_string()
        }
    }
}

} // verus!
