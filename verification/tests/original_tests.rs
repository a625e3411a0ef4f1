use big_int::BigInt;

#[test]
fn test_default() {
    let bigint = BigInt::default();
    assert_eq!(bigint.digits, vec![0]);
    assert_eq!(bigint.negative, false);
}

#[test]
fn test_from_isize() {
    let bigint = BigInt::from(-42);
    assert_eq!(bigint.digits, vec![42]);
    assert_eq!(bigint.negative, true);

    let bigint = BigInt::from(42);
    assert_eq!(bigint.digits, vec![42]);
    assert_eq!(bigint.negative, false);
}

#[test]
fn test_from_usize() {
    let bigint = BigInt::from(usize::MAX);
    assert_eq!(bigint.digits, vec![usize::MAX]);
    assert_eq!(bigint.negative, false);
}

#[test]
fn test_from_i32() {
    let bigint = BigInt::from(-42);
    assert_eq!(bigint.digits, vec![42]);
    assert_eq!(bigint.negative, true);

    let bigint = BigInt::from(42);
    assert_eq!(bigint.digits, vec![42]);
    assert_eq!(bigint.negative, false);
}

#[test]
fn test_from_u32() {
    let bigint = BigInt::from(42);
    assert_eq!(bigint.digits, vec![42]);
    assert_eq!(bigint.negative, false);
}

#[test]
fn test_from_i64() {
    let bigint = BigInt::from(-42);
    assert_eq!(bigint.digits, vec![42]);
    assert_eq!(bigint.negative, true);

    let bigint = BigInt::from(42);
    assert_eq!(bigint.digits, vec![42]);
    assert_eq!(bigint.negative, false);

    let bigint = BigInt::from(isize::MIN);
    assert_eq!(bigint.digits, vec![isize::MIN as usize]);
    assert_eq!(bigint.negative, true);
}

#[test]
fn test_from_u64() {
    let bigint = BigInt::from(42);
    assert_eq!(bigint.digits, vec![42]);
    assert_eq!(bigint.negative, false);

    let bigint = BigInt::from(1_000_000_000_000_000_000usize);
    assert_eq!(bigint.digits, vec![1000000000000000000]);
    assert_eq!(bigint.negative, false);
}

#[test]
fn test_from_vec() {
    let bigint = BigInt::from(vec![42, 42]);
    assert_eq!(bigint.digits, vec![42, 42]);
    assert_eq!(bigint.negative, false);
}

#[test]
fn test_from_vec_leading_zeros() {
    let bigint = BigInt::from(vec![42, 42, 0, 0]);
    assert_eq!(bigint.digits, vec![42, 42]);
    assert_eq!(bigint.negative, false);
}

#[test]
fn test_from_vec_zero() {
    let bigint = BigInt::from(vec![0, 0, 0, 0]);
    assert_eq!(bigint.digits, vec![0]);
    assert_eq!(bigint.negative, false);
}

#[test]
fn test_from_vec_mixed_zeros() {
    let bigint = BigInt::from(vec![0, 42, 0, 42, 0, 0]);
    assert_eq!(bigint.digits, vec![0, 42, 0, 42]);
    assert_eq!(bigint.negative, false);
}

#[test]
fn test_from_vec_zero_with_leading_zeros() {
    let bigint = BigInt::from(vec![0, 0, 0, 0]);
    assert_eq!(bigint.digits, vec![0]);
    assert_eq!(bigint.negative, false);
}

#[test]
fn test_negative_zero_not_allowed() {
    let bigint = BigInt::from(-0);
    assert_eq!(bigint.digits, vec![0]);
    assert_eq!(bigint.negative, false);
}

#[test]
fn test_from_vec_single_zero() {
    let bigint = BigInt::from(vec![0]);
    assert_eq!(bigint.digits, vec![0]);
    assert_eq!(bigint.negative, false);
}

#[test]
fn test_add_positive_numbers() {
    let a = BigInt::from(42);
    let b = BigInt::from(42);
    let sum = a + b;
    assert_eq!(sum.digits, vec![84]);
    assert_eq!(sum.negative, false);
}

#[test]
fn test_add_negative_numbers() {
    let a = BigInt::from(-42);
    let b = BigInt::from(-42);
    let sum = a + b;
    assert_eq!(sum.digits, vec![84]);
    assert_eq!(sum.negative, true);
}

#[test]
fn test_add_overflow_single_digit() {
    let a = BigInt {
        digits: vec![usize::MAX, 0],
        negative: false,
    };
    let b = BigInt::from(1);
    let sum = a + b;
    assert_eq!(sum.digits, vec![0, 1]);
    assert_eq!(sum.negative, false);
}

#[test]
fn test_add_overflow_multiple_digits() {
    let a = BigInt {
        digits: vec![usize::MAX, usize::MAX],
        negative: false,
    };
    let b = BigInt::from(1);
    let sum = a + b;
    assert_eq!(sum.digits, vec![0, 0, 1]);
    assert_eq!(sum.negative, false);
}

#[test]
fn test_add_max_usize() {
    let a = BigInt::from(usize::MAX);
    let b = BigInt::from(usize::MAX);
    let sum = a + b;
    assert_eq!(sum.digits, vec![usize::MAX - 1, 1]);
    assert_eq!(sum.negative, false);
}

// Add tests for adding positive and negative numbers
#[test]
fn test_add_positive_negative() {
    let a = BigInt::from(42);
    let b = BigInt::from(-42);
    let sum = a + b;
    assert_eq!(sum.digits, vec![0]);
    assert_eq!(sum.negative, false);
}

#[test]
fn test_add_negative_positive() {
    let a = BigInt::from(-42);
    let b = BigInt::from(42);
    let sum = a + b;
    assert_eq!(sum.digits, vec![0]);
    assert_eq!(sum.negative, false);
}

#[test]
fn test_add_negative_positive_overflow() {
    let a = BigInt {
        digits: vec![0, 1],
        negative: false,
    };
    let b = BigInt::from(-1);
    let sum = a + b;
    assert_eq!(sum.digits, vec![usize::MAX]);
    assert_eq!(sum.negative, false);
}

#[test]
fn test_add_positive_negative_overflow() {
    let a = BigInt {
        digits: vec![0, 1],
        negative: true,
    };
    let b = BigInt::from(1);
    let sum = a + b;
    assert_eq!(sum.digits, vec![usize::MAX]);
    assert_eq!(sum.negative, true);
}

#[test]
fn test_add_large_numbers_no_overflow() {
    let a = BigInt {
        digits: vec![123456789, 987654321, 123456789],
        negative: false,
    };
    let b = BigInt {
        digits: vec![987654321, 123456789, 987654321],
        negative: false,
    };
    let sum = a + b;
    assert_eq!(sum.digits, vec![1111111110, 1111111110, 1111111110]);
    assert_eq!(sum.negative, false);
}

#[test]
fn test_add_large_numbers_with_overflow() {
    let a = BigInt {
        digits: vec![usize::MAX - 1, usize::MAX - 1, usize::MAX - 1],
        negative: false,
    };
    let b = BigInt {
        digits: vec![2, 2, 2],
        negative: false,
    };
    let sum = a + b;
    assert_eq!(sum.digits, vec![0, 1, 1, 1]);
    assert_eq!(sum.negative, false);
}

#[test]
fn test_subtract_large_numbers() {
    let a = BigInt {
        digits: vec![usize::MAX, usize::MAX, usize::MAX],
        negative: false,
    };
    let b = BigInt {
        digits: vec![1, 1, 1],
        negative: true,
    };
    let diff = a + b;
    assert_eq!(
        diff.digits,
        vec![usize::MAX - 1, usize::MAX - 1, usize::MAX - 1],
    );
    assert_eq!(diff.negative, false);
}

#[test]
fn test_subtract_large_numbers_with_borrow() {
    let a = BigInt {
        digits: vec![0, 0, usize::MAX],
        negative: false,
    };
    let b = BigInt {
        digits: vec![1, 1, 1],
        negative: true,
    };
    let diff = a + b;
    assert_eq!(
        diff.digits,
        vec![usize::MAX, usize::MAX - 1, usize::MAX - 2]
    );
    assert_eq!(diff.negative, false);
}

#[test]
fn test_mixed_sign_operations() {
    let a = BigInt {
        digits: vec![usize::MAX, 0, 123456789],
        negative: true,
    };
    let b = BigInt {
        digits: vec![1, 0, 987654321],
        negative: false,
    };
    let sum = a + b;
    assert_eq!(sum.digits, vec![2, usize::MAX, 864197531]);
    assert_eq!(sum.negative, false);
}

#[test]
fn test_mixed_sign_operations_2() {
    let a = BigInt {
        digits: vec![123456789, 987654321, 123456789],
        negative: true,
    };
    let b = BigInt {
        digits: vec![987654321, 123456789, 987654321],
        negative: false,
    };
    let sum = a + b;
    assert_eq!(
        sum.digits,
        vec![864197532, usize::MAX - 864197532 + 1, 864197531]
    );
    assert_eq!(sum.negative, false);
}
