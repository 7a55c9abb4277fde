use big_numbers::BigUInt;
use std::cmp::Ordering;

fn big(limbs: &[u32]) -> BigUInt {
    BigUInt { limbs: limbs.to_vec() }
}

#[test]
fn add_commutes_on_operands_of_different_length() {
    let a = big(&[u32::MAX, u32::MAX, 7]);
    let b = big(&[1]);
    assert_eq!(a.add(&b).limbs, b.add(&a).limbs);
    assert_eq!(a.add(&b).limbs, vec![0, 0, 8]);
}

#[test]
fn add_is_associative_across_carries() {
    let a = big(&[u32::MAX, u32::MAX]);
    let b = big(&[u32::MAX]);
    let c = big(&[2, 3, 4]);
    let left = a.add(&b).add(&c);
    let right = a.add(&b.add(&c));
    assert_eq!(left.limbs, right.limbs);
    assert_eq!(left.limbs, vec![0, 4, 5]);
}

#[test]
fn add_zero_is_identity() {
    let a = big(&[9, 8, 7]);
    assert_eq!(a.add(&BigUInt::new()).limbs, vec![9, 8, 7]);
    assert_eq!(BigUInt::new().add(&a).limbs, vec![9, 8, 7]);
    assert_eq!(big(&[]).add(&big(&[])).limbs, vec![0]);
}

#[test]
fn add_ignores_padding_and_returns_canonical_form() {
    let a = big(&[5, 0, 0]);
    let b = big(&[6, 0]);
    assert_eq!(a.add(&b).limbs, vec![11]);
}

#[test]
fn sub_then_add_gives_the_minuend_back() {
    let a = big(&[0, 0, 0, 1]);
    let b = big(&[1, 2, 3]);
    let difference = a.sub(&b);
    assert_eq!(difference.limbs, vec![u32::MAX, u32::MAX - 2, u32::MAX - 3]);
    assert_eq!(difference.add(&b).limbs, a.limbs);
}

#[test]
fn sub_of_equal_magnitudes_is_canonical_zero() {
    let a = big(&[3, 4, 5]);
    assert_eq!(a.sub(&a).limbs, vec![0]);
    assert_eq!(big(&[3, 0, 0]).sub(&big(&[3])).limbs, vec![0]);
}

#[test]
fn mul_single_by_zero_is_canonical_zero() {
    assert_eq!(big(&[1, 2, 3]).mul_single(0).limbs, vec![0]);
}

#[test]
fn mul_single_carries_into_a_new_limb() {
    let a = big(&[u32::MAX, u32::MAX]);
    assert_eq!(a.mul_single(u32::MAX).limbs, vec![1, u32::MAX, u32::MAX - 1]);
}

#[test]
fn mul_commutes_and_matches_known_product() {
    let a = big(&[u32::MAX, u32::MAX]);
    let b = big(&[u32::MAX, u32::MAX]);
    assert_eq!(a.mul(&b).limbs, vec![1, 0, u32::MAX - 1, u32::MAX]);
    let c = big(&[2, 3]);
    let d = big(&[5, 7, 11]);
    assert_eq!(c.mul(&d).limbs, d.mul(&c).limbs);
    assert_eq!(c.mul(&d).limbs, vec![10, 29, 43, 33]);
}

#[test]
fn mul_by_padded_zero_is_canonical_zero() {
    assert_eq!(big(&[1, 2]).mul(&big(&[0, 0])).limbs, vec![0]);
    assert_eq!(big(&[]).mul(&big(&[1, 2])).limbs, vec![0]);
}

#[test]
fn shift_limbs_prepends_zero_limbs() {
    assert_eq!(big(&[7, 9]).shift_limbs(2).limbs, vec![0, 0, 7, 9]);
    assert_eq!(big(&[7, 9]).shift_limbs(0).limbs, vec![7, 9]);
}

#[test]
fn shift_limbs_leaves_zero_as_it_is() {
    assert_eq!(BigUInt::new().shift_limbs(3).limbs, vec![0]);
    assert_eq!(big(&[0, 0]).shift_limbs(3).limbs, vec![0, 0]);
}

#[test]
fn truncate_strips_only_the_top_zero_limbs() {
    assert_eq!(big(&[0, 5, 0, 0]).truncate().limbs, vec![0, 5]);
    assert_eq!(big(&[0, 0, 0]).truncate().limbs, vec![0]);
    assert_eq!(big(&[4]).truncate().limbs, vec![4]);
    assert_eq!(big(&[]).truncate().limbs, vec![0]);
}

#[test]
fn effective_len_counts_up_to_the_highest_nonzero_limb() {
    assert_eq!(big(&[]).effective_len(), 0);
    assert_eq!(big(&[0, 0]).effective_len(), 0);
    assert_eq!(big(&[0, 3, 0]).effective_len(), 2);
    assert_eq!(big(&[1, 2, 3]).effective_len(), 3);
}

#[test]
fn comparison_is_decided_by_the_highest_differing_limb() {
    assert_eq!(big(&[9, 1]).cmp(&big(&[0, 2])), Ordering::Less);
    assert_eq!(big(&[0, 2]).cmp(&big(&[9, 1])), Ordering::Greater);
    assert_eq!(big(&[1, 5, 7]).cmp(&big(&[2, 5, 7])), Ordering::Less);
    assert_eq!(big(&[u32::MAX]).cmp(&big(&[0, 1])), Ordering::Less);
    assert_eq!(big(&[3, 5, 7]).cmp(&big(&[3, 5, 7, 0])), Ordering::Equal);
}

#[test]
fn equality_and_order_operators_go_by_value() {
    assert!(big(&[5, 0, 0]) == big(&[5]));
    assert!(big(&[]) == BigUInt::new());
    assert!(big(&[5]) != big(&[6]));
    assert!(big(&[5]) < big(&[0, 1]));
    assert!(big(&[0, 1, 0]) >= big(&[0, 1]));
    assert!(big(&[1, 1]) > big(&[0, 1, 0]));
}

#[test]
fn clone_keeps_the_limbs() {
    let a = big(&[1, 0, 2, 0]);
    assert_eq!(a.clone().limbs, vec![1, 0, 2, 0]);
}
