//! The mathematical model of a limb sequence: its value as a natural number,
//! and the facts about that value that the arithmetic is proved from.

use vstd::prelude::*;

verus! {

/// The radix of the representation: one more than the largest limb.
pub open spec fn base() -> nat {
    0x1_0000_0000
}

/// `base()` raised to the power `n`: the weight of the limb at index `n`.
pub open spec fn base_pow(n: nat) -> nat
    decreases n,
{
    if n == 0 {
        1
    } else {
        base() * base_pow((n - 1) as nat)
    }
}

/// The number that a little-endian limb sequence stands for.
pub open spec fn limbs_value(s: Seq<u32>) -> nat
    decreases s.len(),
{
    if s.len() == 0 {
        0
    } else {
        (s[0] as nat) + base() * limbs_value(s.drop_first())
    }
}

/// The limb at index `i`, or zero above the top of the sequence.
pub open spec fn limb_at(s: Seq<u32>, i: int) -> u32 {
    if 0 <= i < s.len() {
        s[i]
    } else {
        0
    }
}

/// The lowest `n` limbs of `s`, or all of them where it has fewer.
pub open spec fn low_limbs(s: Seq<u32>, n: nat) -> Seq<u32> {
    if n < s.len() {
        s.take(n as int)
    } else {
        s
    }
}

/// A sequence of `n` zero limbs.
pub open spec fn zeros(n: nat) -> Seq<u32> {
    Seq::new(n, |i: int| 0u32)
}

/// Every limb of `s` is zero.
pub open spec fn all_zero(s: Seq<u32>) -> bool {
    forall|i: int| 0 <= i < s.len() ==> s[i] == 0
}

/// The canonical form: at least one limb, and no zero limb on top unless the
/// sequence is the single limb of zero.
pub open spec fn is_normalized(s: Seq<u32>) -> bool {
    s.len() >= 1 && (s.len() == 1 || s.last() != 0)
}

/// The number of limbs up to and including the highest one that is not zero;
/// none where every limb is zero.
pub open spec fn significant_len(s: Seq<u32>) -> nat
    decreases s.len(),
{
    if s.len() == 0 {
        0
    } else if s.last() == 0 {
        significant_len(s.drop_last())
    } else {
        s.len()
    }
}

/// `s` without its most significant zero limbs, but never shorter than one
/// limb; the empty sequence becomes the single limb of zero.
pub open spec fn trimmed(s: Seq<u32>) -> Seq<u32>
    decreases s.len(),
{
    if s.len() == 0 {
        seq![0u32]
    } else if s.len() > 1 && s.last() == 0 {
        trimmed(s.drop_last())
    } else {
        s
    }
}

/// Every weight is at least one.
pub proof fn lemma_base_pow_positive(n: nat)
    ensures
        base_pow(n) >= 1,
    decreases n,
{
    if n > 0 {
        lemma_base_pow_positive((n - 1) as nat);
        assert(base() * base_pow((n - 1) as nat) >= 1) by (nonlinear_arith)
            requires
                base() >= 1,
                base_pow((n - 1) as nat) >= 1,
        ;
    }
}

/// The weight at `a + b` is the product of the weights at `a` and at `b`.
pub proof fn lemma_base_pow_add(a: nat, b: nat)
    ensures
        base_pow(a + b) == base_pow(a) * base_pow(b),
    decreases a,
{
    if a == 0 {
        assert(base_pow(0) == 1);
    } else {
        lemma_base_pow_add((a - 1) as nat, b);
        assert(base_pow(a + b) == base() * base_pow((a + b - 1) as nat));
        assert(base() * (base_pow((a - 1) as nat) * base_pow(b)) == (base() * base_pow(
            (a - 1) as nat,
        )) * base_pow(b)) by (nonlinear_arith);
    }
}

/// A higher index has a weight at least as large.
pub proof fn lemma_base_pow_monotonic(a: nat, b: nat)
    requires
        a <= b,
    ensures
        base_pow(a) <= base_pow(b),
{
    lemma_base_pow_add(a, (b - a) as nat);
    lemma_base_pow_positive((b - a) as nat);
    lemma_base_pow_positive(a);
    assert(base_pow(a) * 1 <= base_pow(a) * base_pow((b - a) as nat)) by (nonlinear_arith)
        requires
            base_pow((b - a) as nat) >= 1,
    ;
}

/// The value of a concatenation: the upper part is weighted by the length of
/// the lower part.
pub proof fn lemma_value_concat(lo: Seq<u32>, hi: Seq<u32>)
    ensures
        limbs_value(lo + hi) == limbs_value(lo) + base_pow(lo.len()) * limbs_value(hi),
    decreases lo.len(),
{
    if lo.len() == 0 {
        assert(lo + hi =~= hi);
        assert(base_pow(0) == 1);
    } else {
        let rest = lo.drop_first();
        lemma_value_concat(rest, hi);
        assert((lo + hi).drop_first() =~= rest + hi);
        assert((lo + hi)[0] == lo[0]);
        assert(base() * (limbs_value(rest) + base_pow(rest.len()) * limbs_value(hi))
            == base() * limbs_value(rest) + (base() * base_pow(rest.len())) * limbs_value(hi))
            by (nonlinear_arith);
    }
}

/// A single limb stands for itself.
pub proof fn lemma_value_single(x: u32)
    ensures
        limbs_value(seq![x]) == x as nat,
{
    assert(seq![x].drop_first() =~= Seq::<u32>::empty());
    assert(limbs_value(seq![x]) == (x as nat) + base() * limbs_value(seq![x].drop_first()));
    assert(limbs_value(Seq::<u32>::empty()) == 0);
}

/// Appending a limb adds it with the weight of its index.
pub proof fn lemma_value_push(s: Seq<u32>, x: u32)
    ensures
        limbs_value(s.push(x)) == limbs_value(s) + (x as nat) * base_pow(s.len()),
{
    lemma_value_concat(s, seq![x]);
    lemma_value_single(x);
    assert(s.push(x) =~= s + seq![x]);
    assert(base_pow(s.len()) * (x as nat) == (x as nat) * base_pow(s.len())) by (nonlinear_arith);
}

/// A sequence of `n` limbs stands for a number below `base()` to the `n`.
pub proof fn lemma_value_bound(s: Seq<u32>)
    ensures
        limbs_value(s) < base_pow(s.len()),
    decreases s.len(),
{
    if s.len() > 0 {
        lemma_value_bound(s.drop_first());
        let r = limbs_value(s.drop_first());
        let p = base_pow((s.len() - 1) as nat);
        assert((s[0] as nat) + base() * r < base() * p) by (nonlinear_arith)
            requires
                r < p,
                (s[0] as nat) < base(),
        ;
    }
}

/// No limbs at all stand for zero.
pub proof fn lemma_low_limbs_none(s: Seq<u32>)
    ensures
        limbs_value(low_limbs(s, 0)) == 0,
{
    assert(low_limbs(s, 0).len() == 0);
}

/// Taking one more limb from the bottom adds that limb with its weight.
pub proof fn lemma_low_limbs_step(s: Seq<u32>, i: nat)
    ensures
        limbs_value(low_limbs(s, i + 1)) == limbs_value(low_limbs(s, i)) + (limb_at(
            s,
            i as int,
        ) as nat) * base_pow(i),
{
    if i < s.len() {
        assert(low_limbs(s, i + 1) =~= low_limbs(s, i).push(s[i as int]));
        lemma_value_push(low_limbs(s, i), s[i as int]);
    }
}

/// A sequence stands for zero exactly when all of its limbs are zero.
pub proof fn lemma_value_zero_iff(s: Seq<u32>)
    ensures
        limbs_value(s) == 0 <==> all_zero(s),
    decreases s.len(),
{
    if s.len() > 0 {
        let rest = s.drop_first();
        lemma_value_zero_iff(rest);
        let r = limbs_value(rest);
        assert(base() * r == 0 <==> r == 0) by (nonlinear_arith)
            requires
                base() > 0,
        ;
        if all_zero(s) {
            assert forall|i: int| 0 <= i < rest.len() implies rest[i] == 0 by {
                assert(rest[i] == s[i + 1]);
            }
        }
        if limbs_value(s) == 0 {
            assert forall|i: int| 0 <= i < s.len() implies s[i] == 0 by {
                if i > 0 {
                    assert(s[i] == rest[i - 1]);
                }
            }
        }
    }
}

/// A run of zero limbs stands for zero.
pub proof fn lemma_value_zeros(n: nat)
    ensures
        limbs_value(zeros(n)) == 0,
{
    lemma_value_zero_iff(zeros(n));
}

/// Dropping a zero limb from the top leaves the value unchanged.
pub proof fn lemma_value_drop_top_zero(s: Seq<u32>)
    requires
        s.len() > 0,
        s.last() == 0,
    ensures
        limbs_value(s.drop_last()) == limbs_value(s),
{
    assert(s =~= s.drop_last().push(0u32));
    lemma_value_push(s.drop_last(), 0u32);
}

/// Trimming keeps the value and yields the canonical form.
pub proof fn lemma_trimmed(s: Seq<u32>)
    ensures
        limbs_value(trimmed(s)) == limbs_value(s),
        is_normalized(trimmed(s)),
    decreases s.len(),
{
    if s.len() == 0 {
        lemma_value_single(0u32);
    } else if s.len() > 1 && s.last() == 0 {
        lemma_trimmed(s.drop_last());
        lemma_value_drop_top_zero(s);
    }
}

/// What the significant length says of the limbs: those at or above it are
/// zero, the one just below it is not, and the limbs below it carry the value.
pub proof fn lemma_significant_len(s: Seq<u32>)
    ensures
        significant_len(s) <= s.len(),
        forall|j: int| significant_len(s) <= j < s.len() ==> s[j] == 0,
        significant_len(s) > 0 ==> s[significant_len(s) - 1] != 0,
        limbs_value(s.take(significant_len(s) as int)) == limbs_value(s),
        limbs_value(s) < base_pow(significant_len(s)),
        significant_len(s) > 0 ==> limbs_value(s) >= base_pow((significant_len(s) - 1) as nat),
    decreases s.len(),
{
    if s.len() == 0 {
        assert(s.take(0) =~= s);
        assert(base_pow(0) == 1);
    } else if s.last() == 0 {
        let rest = s.drop_last();
        lemma_significant_len(rest);
        lemma_value_drop_top_zero(s);
        assert forall|j: int| significant_len(s) <= j < s.len() implies s[j] == 0 by {
            if j < rest.len() {
                assert(rest[j] == s[j]);
            }
        }
        assert(s.take(significant_len(s) as int) =~= rest.take(significant_len(rest) as int));
    } else {
        let rest = s.drop_last();
        assert(s.take(s.len() as int) =~= s);
        assert(s =~= rest.push(s.last()));
        lemma_value_push(rest, s.last());
        lemma_value_bound(s);
        assert((s.last() as nat) * base_pow(rest.len()) >= base_pow(rest.len()))
            by (nonlinear_arith)
            requires
                s.last() as nat >= 1,
        ;
    }
}

/// The significant length is the only index with the properties that
/// `lemma_significant_len` states.
pub proof fn lemma_significant_len_unique(s: Seq<u32>, n: nat)
    requires
        n <= s.len(),
        forall|j: int| n <= j < s.len() ==> s[j] == 0,
        n > 0 ==> s[n - 1] != 0,
    ensures
        significant_len(s) == n,
    decreases s.len(),
{
    if s.len() > 0 && s.last() == 0 {
        lemma_significant_len_unique(s.drop_last(), n);
    }
}

/// A magnitude with fewer significant limbs is the smaller one.
pub proof fn lemma_shorter_is_less(a: Seq<u32>, b: Seq<u32>)
    requires
        significant_len(a) < significant_len(b),
    ensures
        limbs_value(a) < limbs_value(b),
{
    lemma_significant_len(a);
    lemma_significant_len(b);
    lemma_base_pow_monotonic(significant_len(a), (significant_len(b) - 1) as nat);
}

/// Where two magnitudes of equal significant length agree above limb `i`
/// and differ at `i`, that limb decides which is smaller.
pub proof fn lemma_top_difference_decides(a: Seq<u32>, b: Seq<u32>, i: usize)
    requires
        significant_len(a) == significant_len(b),
        i < significant_len(a),
        forall|j: int| i < j < significant_len(a) ==> a[j] == b[j],
        a[i as int] < b[i as int],
    ensures
        limbs_value(a) < limbs_value(b),
{
    let n = significant_len(a) as int;
    let k = i as int;
    lemma_significant_len(a);
    lemma_significant_len(b);
    let ta = a.take(n);
    let tb = b.take(n);
    assert(ta =~= ta.take(k + 1) + ta.skip(k + 1));
    assert(tb =~= tb.take(k + 1) + tb.skip(k + 1));
    assert(ta.skip(k + 1) =~= tb.skip(k + 1));
    lemma_value_concat(ta.take(k + 1), ta.skip(k + 1));
    lemma_value_concat(tb.take(k + 1), tb.skip(k + 1));
    assert(ta.take(k + 1) =~= ta.take(k).push(a[k]));
    assert(tb.take(k + 1) =~= tb.take(k).push(b[k]));
    lemma_value_push(ta.take(k), a[k]);
    lemma_value_push(tb.take(k), b[k]);
    lemma_value_bound(ta.take(k));
    let w = base_pow(k as nat);
    assert((a[k] as nat) * w + w <= (b[k] as nat) * w) by (nonlinear_arith)
        requires
            (a[k] as nat) + 1 <= (b[k] as nat),
    ;
}

/// Two magnitudes of equal significant length whose limbs agree below it
/// stand for the same number.
pub proof fn lemma_same_limbs_same_value(a: Seq<u32>, b: Seq<u32>)
    requires
        significant_len(a) == significant_len(b),
        forall|j: int| 0 <= j < significant_len(a) ==> a[j] == b[j],
    ensures
        limbs_value(a) == limbs_value(b),
{
    lemma_significant_len(a);
    lemma_significant_len(b);
    assert(a.take(significant_len(a) as int) =~= b.take(significant_len(b) as int));
}

/// Writing `x` over a zero limb adds `x` with the weight of its index.
pub proof fn lemma_value_update_zero(s: Seq<u32>, i: int, x: u32)
    requires
        0 <= i < s.len(),
        s[i] == 0,
    ensures
        limbs_value(s.update(i, x)) == limbs_value(s) + (x as nat) * base_pow(i as nat),
{
    let lo = s.take(i);
    let hi = s.skip(i + 1);
    assert(s =~= lo.push(0u32) + hi);
    assert(s.update(i, x) =~= lo.push(x) + hi);
    lemma_value_concat(lo.push(0u32), hi);
    lemma_value_concat(lo.push(x), hi);
    lemma_value_push(lo, 0u32);
    lemma_value_push(lo, x);
}

/// A magnitude below `base()` to the `k + 1` is made of its limbs at `k` and
/// `k - 1`, weighted, and of what lies under them.
pub proof fn lemma_top_two_limbs(s: Seq<u32>, k: nat)
    requires
        k >= 1,
        limbs_value(s) < base_pow(k + 1),
    ensures
        limbs_value(s) == ((limb_at(s, k as int) as nat) * base() + (limb_at(s, k - 1) as nat))
            * base_pow((k - 1) as nat) + limbs_value(low_limbs(s, (k - 1) as nat)),
        limbs_value(low_limbs(s, (k - 1) as nat)) < base_pow((k - 1) as nat),
{
    let w = base_pow((k - 1) as nat);
    let hi = limb_at(s, k as int) as nat;
    let lo = limb_at(s, k - 1) as nat;
    let under = low_limbs(s, (k - 1) as nat);
    lemma_low_limbs_step(s, (k - 1) as nat);
    lemma_low_limbs_step(s, k);
    assert(limbs_value(low_limbs(s, k + 1)) == limbs_value(under) + lo * w + hi * base_pow(k));
    lemma_value_bound(under);
    lemma_base_pow_monotonic(under.len(), (k - 1) as nat);
    assert(base_pow(k) == base() * w);
    assert(hi * (base() * w) + lo * w == (hi * base() + lo) * w) by (nonlinear_arith);
    lemma_value_below_weight(s, k + 1);
}

/// A magnitude below `base()` to the `n` is carried by its lowest `n` limbs.
pub proof fn lemma_value_below_weight(s: Seq<u32>, n: nat)
    requires
        limbs_value(s) < base_pow(n),
    ensures
        limbs_value(low_limbs(s, n)) == limbs_value(s),
{
    if n < s.len() {
        let top = s.skip(n as int);
        let bottom = s.take(n as int);
        assert(s =~= bottom + top);
        lemma_value_concat(bottom, top);
        let p = base_pow(n);
        let t = limbs_value(top);
        assert(t == 0) by (nonlinear_arith)
            requires
                p * t < p,
        ;
        assert(p * t == 0) by (nonlinear_arith)
            requires
                t == 0,
        ;
    }
}

/// A canonical magnitude that is not zero is at least its top limb times
/// the weight of that limb.
pub proof fn lemma_value_top_limb(s: Seq<u32>)
    requires
        s.len() >= 1,
    ensures
        limbs_value(s) >= (s.last() as nat) * base_pow((s.len() - 1) as nat),
{
    assert(s =~= s.drop_last().push(s.last()));
    lemma_value_push(s.drop_last(), s.last());
}

/// Two limb sequences of one length that stand for the same number are the
/// same sequence.
pub proof fn lemma_value_injective(a: Seq<u32>, b: Seq<u32>)
    requires
        a.len() == b.len(),
        limbs_value(a) == limbs_value(b),
    ensures
        a == b,
    decreases a.len(),
{
    if a.len() > 0 {
        let ra = a.drop_first();
        let rb = b.drop_first();
        let v = limbs_value(a) as int;
        vstd::arithmetic::div_mod::lemma_fundamental_div_mod_converse(
            v,
            base() as int,
            limbs_value(ra) as int,
            a[0] as int,
        );
        vstd::arithmetic::div_mod::lemma_fundamental_div_mod_converse(
            v,
            base() as int,
            limbs_value(rb) as int,
            b[0] as int,
        );
        lemma_value_injective(ra, rb);
        assert forall|i: int| 0 <= i < a.len() implies a[i] == b[i] by {
            if i > 0 {
                assert(a[i] == ra[i - 1]);
                assert(b[i] == rb[i - 1]);
            }
        }
    }
    assert(a =~= b);
}

/// A number has one canonical form only.
pub proof fn lemma_normalized_unique(a: Seq<u32>, b: Seq<u32>)
    requires
        is_normalized(a),
        is_normalized(b),
        limbs_value(a) == limbs_value(b),
    ensures
        a == b,
{
    lemma_value_zero_iff(a);
    lemma_value_zero_iff(b);
    if limbs_value(a) != 0 {
        lemma_significant_len_unique(a, a.len());
        lemma_significant_len_unique(b, b.len());
        if a.len() < b.len() {
            lemma_shorter_is_less(a, b);
        }
        if b.len() < a.len() {
            lemma_shorter_is_less(b, a);
        }
    }
    lemma_value_injective(a, b);
}

} // verus!
