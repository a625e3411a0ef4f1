use big_int::BigInt;
use std::cmp::Ordering;

fn big(digits: Vec<usize>, negative: bool) -> BigInt {
    BigInt { digits, negative }
}

#[test]
fn add_same_sign_carries_into_new_digit() {
    let sum = big(vec![usize::MAX, usize::MAX], true) + big(vec![1], true);
    assert_eq!(sum.digits, vec![0, 0, 1]);
    assert!(sum.negative);
}

#[test]
fn add_same_sign_trims_non_canonical_operands() {
    let sum = big(vec![3, 0, 0], false) + big(vec![4, 0], false);
    assert_eq!(sum.digits, vec![7]);
    assert!(!sum.negative);
}

#[test]
fn add_two_empty_digit_vectors() {
    let sum = big(vec![], false) + big(vec![], false);
    assert!(sum.digits.is_empty());
    assert!(!sum.negative);
    let mixed = big(vec![], true) + big(vec![], false);
    assert!(mixed.digits.is_empty());
    assert!(mixed.negative);
}

#[test]
fn add_opposite_signs_takes_sign_of_larger_magnitude() {
    let sum = BigInt::from(-100) + BigInt::from(58);
    assert_eq!(sum.digits, vec![42]);
    assert!(sum.negative);
}

#[test]
fn add_opposite_signs_equal_magnitudes_gives_zero() {
    let sum = big(vec![7, 9], true) + big(vec![7, 9], false);
    assert_eq!(sum.digits, vec![0]);
    assert!(!sum.negative);
}

#[test]
fn add_opposite_signs_value_law_example() {
    // 5 * R^2 + 1 - (R + 2) = 4 * R^2 + (R - 2) * R + (R - 1)
    let sum = big(vec![1, 0, 5], false) + big(vec![2, 1], true);
    assert_eq!(sum.digits, vec![usize::MAX, usize::MAX - 1, 4]);
    assert!(!sum.negative);
}

#[test]
fn add_opposite_signs_wrapped_borrow_column() {
    // The subtrahend digit usize::MAX meets an incoming borrow: that borrow is lost.
    let sum = big(vec![0, 0, 5], false) + big(vec![1, usize::MAX], true);
    assert_eq!(sum.digits, vec![usize::MAX, 0, 5]);
    assert!(!sum.negative);
}

#[test]
fn add_opposite_signs_borrow_leaves_last_column() {
    // [0, 0] has more digits than [5], so it is taken as the larger magnitude.
    let sum = big(vec![0, 0], false) + big(vec![5], true);
    assert_eq!(sum.digits, vec![usize::MAX - 4, usize::MAX - 1]);
    assert!(!sum.negative);
}

#[test]
fn sub_same_sign_exact() {
    let diff = big(vec![5, 7], false) - big(vec![9, 2], false);
    assert_eq!(diff.digits, vec![usize::MAX - 3, 4]);
    assert!(!diff.negative);
    let neg = BigInt::from(-3) - BigInt::from(-10);
    assert_eq!(neg.digits, vec![usize::MAX - 6]);
    assert!(neg.negative);
}

#[test]
fn sub_same_sign_negatives_value() {
    let diff = BigInt::from(-10) - BigInt::from(-3);
    assert_eq!(diff.digits, vec![7]);
    assert!(diff.negative);
}

#[test]
fn sub_keeps_only_common_positions() {
    let diff = big(vec![1, 1], false) - big(vec![1], false);
    assert_eq!(diff.digits, vec![0]);
    let empty = big(vec![4], false) - big(vec![], false);
    assert!(empty.digits.is_empty());
}

#[test]
fn sub_opposite_signs_subtracts_magnitudes() {
    let diff = BigInt::from(5) - BigInt::from(-3);
    assert_eq!(diff.digits, vec![2]);
    assert!(!diff.negative);
    let other = BigInt::from(-3) - BigInt::from(5);
    assert_eq!(other.digits, vec![2]);
    assert!(!other.negative);
}

#[test]
fn from_i32_min_and_isize_min() {
    let a = BigInt::from(i32::MIN);
    assert_eq!(a.digits, vec![1usize << 31]);
    assert!(a.negative);
    let b = BigInt::from(isize::MIN);
    assert_eq!(b.digits, vec![1usize << (usize::BITS - 1)]);
    assert!(b.negative);
}

#[test]
fn from_u32_and_usize_keep_value() {
    assert_eq!(BigInt::from(u32::MAX).digits, vec![u32::MAX as usize]);
    assert_eq!(BigInt::from(0usize).digits, vec![0]);
    assert!(!BigInt::from(0usize).negative);
}

#[test]
fn from_i64_uses_base_of_bit_count() {
    let base = (usize::BITS - 2) as i64;
    let small = BigInt::from(-(base - 1));
    assert_eq!(small.digits, vec![(base - 1) as usize]);
    assert!(small.negative);
    let b = BigInt::from(base);
    assert_eq!(b.digits, vec![0, 1]);
    assert!(!b.negative);
    let n = BigInt::from(-(base * base + 2 * base + 3));
    assert_eq!(n.digits, vec![3, 2, 1]);
    assert!(n.negative);
    assert!(BigInt::from(0i64).digits.is_empty());
}

#[test]
fn from_i64_min_gives_digits_of_magnitude() {
    let base = (usize::BITS - 2) as u64;
    let mut expected = Vec::new();
    let mut m: u64 = 1 << 63;
    while m > 0 {
        expected.push((m % base) as usize);
        m /= base;
    }
    let b = BigInt::from(i64::MIN);
    assert_eq!(b.digits, expected);
    assert!(b.negative);
}

#[test]
fn from_u64_uses_power_of_two_base() {
    let base: u64 = 1 << (usize::BITS - 2);
    assert_eq!(BigInt::from(base - 1).digits, vec![(base - 1) as usize]);
    assert_eq!(BigInt::from(base).digits, vec![0, 1]);
    assert_eq!(BigInt::from(3 * base + 5).digits, vec![5, 3]);
    assert!(BigInt::from(0u64).digits.is_empty());
}

#[test]
fn from_empty_vec_keeps_no_digits() {
    let b = BigInt::from(Vec::<usize>::new());
    assert!(b.digits.is_empty());
    assert!(!b.negative);
}

#[test]
fn abs_clears_sign_only() {
    let a = big(vec![3, 0], true).abs();
    assert_eq!(a.digits, vec![3, 0]);
    assert!(!a.negative);
}

#[test]
fn eq_compares_sign_and_digits() {
    assert!(BigInt::from(42) == big(vec![42], false));
    assert!(BigInt::from(42) != BigInt::from(-42));
    assert!(big(vec![42, 0], false) != big(vec![42], false));
}

#[test]
fn partial_cmp_orders_by_sign_then_length_then_digits() {
    assert_eq!(BigInt::from(-1).partial_cmp(&BigInt::from(1)), Some(Ordering::Less));
    assert_eq!(BigInt::from(2).partial_cmp(&BigInt::from(1)), Some(Ordering::Greater));
    assert_eq!(big(vec![0, 1], false).partial_cmp(&big(vec![5], false)), Some(Ordering::Greater));
    assert_eq!(big(vec![0, 1], true).partial_cmp(&big(vec![5], true)), Some(Ordering::Less));
    assert_eq!(BigInt::from(7).partial_cmp(&BigInt::from(7)), Some(Ordering::Equal));
    assert_eq!(BigInt::from(-7).partial_cmp(&BigInt::from(-7)), Some(Ordering::Equal));
    assert!(BigInt::from(3) < BigInt::from(4));
}

#[test]
fn partial_cmp_negatives_of_one_length_by_magnitude() {
    assert_eq!(BigInt::from(-5).partial_cmp(&BigInt::from(-3)), Some(Ordering::Greater));
    assert_eq!(BigInt::from(-3).partial_cmp(&BigInt::from(-5)), Some(Ordering::Less));
}

#[test]
fn partial_cmp_antisymmetric_example() {
    let a = big(vec![1, 2], true);
    let b = big(vec![9], true);
    assert_eq!(a.partial_cmp(&b), Some(Ordering::Less));
    assert_eq!(b.partial_cmp(&a), Some(Ordering::Greater));
}

#[test]
fn add_commutes_example() {
    let a = big(vec![3, 8], true);
    let b = big(vec![9, 2], false);
    let ab = a.clone() + b.clone();
    let ba = b + a;
    assert_eq!(ab.digits, ba.digits);
    assert_eq!(ab.negative, ba.negative);
    assert_eq!(ab.digits, vec![usize::MAX - 5, 5]);
    assert!(ab.negative);
}

#[test]
fn from_values_round_trip_through_add() {
    let sum = BigInt::from(-7) + BigInt::from(-8);
    assert_eq!(sum.digits, vec![15]);
    assert!(sum.negative);
    let zero = BigInt::from(0);
    assert_eq!(zero.digits, vec![0]);
    assert!(!zero.negative);
}
